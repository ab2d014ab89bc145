//! The graph's node instances by uuid: a table in ascending uuid order,
//! each entry holding the index of the first node that carries the uuid,
//! and the problems a compile reports about the instances themselves —
//! a type nobody declares, an identity two nodes claim.

use vstd::prelude::*;
use vstd::string::StringExecFns;
use crate::graph::{node_name, NodeInstance};
use crate::ids::{hyphenated, uuid_text};
use crate::model::NodeType;
use crate::registry::Registry;

verus! {

/// One problem a compile found: the message, and the node instances it
/// names, in the order the message names them.
pub struct Problem {
    pub message: String,
    pub nodes: Vec<u128>,
}

/// The problems after are those before, then one for each finding, its
/// message and nodes, in order.
pub open spec fn reported(before: Seq<Problem>, after: Seq<Problem>, added: Seq<(Seq<char>, Seq<u128>)>) -> bool {
    &&& after.len() == before.len() + added.len()
    &&& after.subrange(0, before.len() as int) == before
    &&& forall|k: int| 0 <= k < added.len() ==> after[before.len() + k].message@ == (#[trigger] added[k]).0
        && after[before.len() + k].nodes@ == added[k].1
}

pub proof fn lemma_reported_push(before: Seq<Problem>, after: Seq<Problem>, added: Seq<(Seq<char>, Seq<u128>)>, p: Problem, finding: (Seq<char>, Seq<u128>))
    requires
        reported(before, after, added),
        p.message@ == finding.0,
        p.nodes@ == finding.1,
    ensures
        reported(before, after.push(p), added.push(finding)),
{
    assert(after.push(p).subrange(0, before.len() as int) =~= after.subrange(0, before.len() as int));
    assert forall|k: int| 0 <= k < added.push(finding).len() implies after.push(p)[before.len() + k].message@ == (#[trigger] added.push(finding)[k]).0
        && after.push(p)[before.len() + k].nodes@ == added.push(finding)[k].1 by {
        if k < added.len() {
            assert(added.push(finding)[k] == added[k]);
        }
    }
}

pub proof fn lemma_reported_chain(first: Seq<Problem>, second: Seq<Problem>, third: Seq<Problem>,
    added: Seq<(Seq<char>, Seq<u128>)>, more: Seq<(Seq<char>, Seq<u128>)>)
    requires
        reported(first, second, added),
        reported(second, third, more),
    ensures
        reported(first, third, added + more),
{
    assert(third.subrange(0, first.len() as int) =~= second.subrange(0, first.len() as int)) by {
        assert forall|k: int| 0 <= k < first.len() implies third[k] == second[k] by {
            assert(third.subrange(0, second.len() as int)[k] == second[k]);
        }
    }
    assert forall|k: int| 0 <= k < (added + more).len() implies third[first.len() + k].message@ == (#[trigger] (added + more)[k]).0
        && third[first.len() + k].nodes@ == (added + more)[k].1 by {
        if k < added.len() {
            assert(third.subrange(0, second.len() as int)[first.len() + k] == second[first.len() + k]);
            assert((added + more)[k] == added[k]);
        } else {
            assert((added + more)[k] == more[k - added.len()]);
        }
    }
}

pub proof fn lemma_reported_none(problems: Seq<Problem>)
    ensures
        reported(problems, problems, Seq::empty()),
{
    assert(problems.subrange(0, problems.len() as int) =~= problems);
}

/// A problem marking one node.
pub fn problem(message: String, node: u128) -> (p: Problem)
    ensures
        p.message@ == message@,
        p.nodes@ == seq![node],
{
    let mut nodes: Vec<u128> = Vec::new();
    nodes.push(node);
    Problem { message, nodes }
}

/// The node type an instance instantiates, where one is declared.
pub open spec fn type_of(registry: Registry, instance: NodeInstance) -> Option<NodeType> {
    registry.node_type_of(instance.type_ref@)
}

/// The label of a node type, where there is one.
pub open spec fn label_of(node_type: Option<NodeType>) -> Option<Seq<char>> {
    match node_type {
        Some(t) => Some(t.label@),
        None => None,
    }
}

/// What a message calls an instance, given the registry.
pub open spec fn name_in(registry: Registry, instance: NodeInstance) -> Seq<char> {
    node_name(instance, label_of(type_of(registry, instance)))
}

/// `k` is the first index of `nodes` whose node carries `uuid`.
pub open spec fn first_with(nodes: Seq<NodeInstance>, uuid: u128, k: int) -> bool {
    &&& 0 <= k < nodes.len()
    &&& nodes[k].uuid == uuid
    &&& forall|j: int| 0 <= j < k ==> #[trigger] nodes[j].uuid != uuid
}

/// The first node carrying `uuid`: the instance the uuid names.
pub open spec fn instance_with(nodes: Seq<NodeInstance>, uuid: u128) -> NodeInstance {
    nodes[choose|k: int| first_with(nodes, uuid, k)]
}

/// Only one index is the first to carry a uuid.
pub proof fn lemma_first_with(nodes: Seq<NodeInstance>, uuid: u128, k: int)
    requires
        first_with(nodes, uuid, k),
    ensures
        instance_with(nodes, uuid) == nodes[k],
        carried(nodes, uuid),
{
    let c = choose|c: int| first_with(nodes, uuid, c);
    assert(first_with(nodes, uuid, c));
    if c < k {
        assert(nodes[c].uuid != uuid);
    } else if c > k {
        assert(nodes[k].uuid != uuid);
    }
    assert(nodes[k].uuid == uuid);
}

/// A carried uuid has a first node carrying it.
pub proof fn lemma_carried(nodes: Seq<NodeInstance>, uuid: u128, k: int)
    requires
        0 <= k < nodes.len(),
        nodes[k].uuid == uuid,
    ensures
        exists|f: int| first_with(nodes, uuid, f),
        exists|f: int| 0 <= f < nodes.len() && instance_with(nodes, uuid) == #[trigger] nodes[f],
    decreases k,
{
    if exists|j: int| 0 <= j < k && #[trigger] nodes[j].uuid == uuid {
        let j = choose|j: int| 0 <= j < k && #[trigger] nodes[j].uuid == uuid;
        lemma_carried(nodes, uuid, j);
    } else {
        assert(first_with(nodes, uuid, k));
        lemma_first_with(nodes, uuid, k);
    }
}

/// Every node instantiates a declared type.
pub open spec fn types_known(registry: Registry, nodes: Seq<NodeInstance>) -> bool {
    forall|k: int| 0 <= k < nodes.len() ==> type_of(registry, #[trigger] nodes[k]) is Some
}

/// Whether some node carries `uuid`.
pub open spec fn carried(nodes: Seq<NodeInstance>, uuid: u128) -> bool {
    exists|k: int| 0 <= k < nodes.len() && #[trigger] nodes[k].uuid == uuid
}

/// Uuids ascend through the table.
pub open spec fn ascending(table: Seq<u128>) -> bool {
    forall|i: int, j: int| 0 <= i < j < table.len() ==> table[i] < table[j]
}

/// The instance table of `nodes`: every uuid the nodes carry, once each,
/// ascending.
pub open spec fn instance_table(nodes: Seq<NodeInstance>, table: Seq<u128>) -> bool {
    &&& ascending(table)
    &&& forall|uuid: u128| table.contains(uuid) <==> carried(nodes, uuid)
}

/// Every node instantiates a declared type and carries its own uuid.
pub open spec fn instances_sound(nodes: Seq<NodeInstance>, registry: Registry) -> bool {
    &&& types_known(registry, nodes)
    &&& forall|j: int, k: int| 0 <= j < k < nodes.len() ==> (#[trigger] nodes[j]).uuid != (#[trigger] nodes[k]).uuid
}

/// The node type an instance instantiates, as the registry declares it.
pub fn type_label<'r>(registry: &'r Registry, instance: &NodeInstance) -> (found: Option<&'r NodeType>)
    requires
        registry.wf(),
    ensures
        match found {
            Some(t) => type_of(*registry, *instance) == Some(*t),
            None => type_of(*registry, *instance) is None,
        },
{
    registry.node_type(instance.type_ref.as_str())
}

/// What a message calls an instance.
pub fn name_of(registry: &Registry, instance: &NodeInstance) -> (name: String)
    requires
        registry.wf(),
    ensures
        name@ == name_in(*registry, *instance),
{
    match type_label(registry, instance) {
        Some(t) => instance.name(Some(&t.label)),
        None => instance.name(None),
    }
}

/// The index of the first node carrying `uuid`, if any does.
pub fn first_index(nodes: &Vec<NodeInstance>, uuid: u128) -> (found: Option<usize>)
    ensures
        match found {
            Some(k) => first_with(nodes@, uuid, k as int),
            None => !carried(nodes@, uuid),
        },
{
    let mut k: usize = 0;
    while k < nodes.len()
        invariant
            k <= nodes.len(),
            forall|j: int| 0 <= j < k ==> #[trigger] nodes@[j].uuid != uuid,
        decreases nodes.len() - k,
    {
        if nodes[k].uuid == uuid {
            return Some(k);
        }
        k = k + 1;
    }
    None
}

/// The instance a uuid names, if any node carries it.
pub fn instance_of<'n>(nodes: &'n Vec<NodeInstance>, uuid: u128) -> (found: Option<&'n NodeInstance>)
    ensures
        match found {
            Some(instance) => carried(nodes@, uuid) && *instance == instance_with(nodes@, uuid),
            None => !carried(nodes@, uuid),
        },
{
    match first_index(nodes, uuid) {
        Some(k) => {
            proof {
                lemma_first_with(nodes@, uuid, k as int);
            }
            Some(&nodes[k])
        },
        None => None,
    }
}

/// Whether the table holds `uuid`.
pub fn table_holds(table: &Vec<u128>, uuid: u128) -> (found: bool)
    ensures
        found == table@.contains(uuid),
{
    let mut i: usize = 0;
    while i < table.len()
        invariant
            i <= table.len(),
            forall|j: int| 0 <= j < i ==> table@[j] != uuid,
        decreases table.len() - i,
    {
        if table[i] == uuid {
            proof {
                assert(table@[i as int] == uuid);
            }
            return true;
        }
        i = i + 1;
    }
    false
}

pub open spec fn unknown_type_message(name: Seq<char>, type_ref: Seq<char>) -> Seq<char> {
    "node "@ + name + " instantiates `"@ + type_ref
        + "`, which no group in the document defines and no linked plugin declares"@
}

pub open spec fn shared_identity_message(first: Seq<char>, second: Seq<char>, uuid: u128) -> Seq<char> {
    "the nodes `"@ + first + "` and `"@ + second + "` claim the same identity"@
        + if first == second { " "@ + hyphenated(uuid) } else { Seq::empty() }
}

fn unknown_type(name: &String, type_ref: &String) -> (message: String)
    ensures
        message@ == unknown_type_message(name@, type_ref@),
{
    let mut message = "node ".to_owned();
    message.append(name.as_str());
    message.append(" instantiates `");
    message.append(type_ref.as_str());
    message.append("`, which no group in the document defines and no linked plugin declares");
    message
}

fn shared_identity(first: &String, second: &String, uuid: u128) -> (message: String)
    ensures
        message@ == shared_identity_message(first@, second@, uuid),
{
    let mut message = "the nodes `".to_owned();
    message.append(first.as_str());
    message.append("` and `");
    message.append(second.as_str());
    message.append("` claim the same identity");
    if crate::text::same_text(first.as_str(), second.as_str()) {
        message.append(" ");
        let text = uuid_text(uuid);
        message.append(text.as_str());
    }
    message
}

/// Insert a uuid the table does not hold, keeping the uuids ascending.
fn insert_key(table: &mut Vec<u128>, uuid: u128)
    requires
        ascending(old(table)@),
        !old(table)@.contains(uuid),
    ensures
        ascending(final(table)@),
        forall|x: u128| final(table)@.contains(x) <==> (old(table)@.contains(x) || x == uuid),
{
    let mut at: usize = 0;
    while at < table.len() && table[at] < uuid
        invariant
            at <= table.len(),
            forall|i: int| 0 <= i < at ==> table@[i] < uuid,
        decreases table.len() - at,
    {
        at = at + 1;
    }
    let ghost before = table@;
    proof {
        assert forall|i: int| at <= i < before.len() implies before[i] > uuid by {
            assert(before[at as int] >= uuid);
            assert(before[at as int] != uuid);
        }
    }
    table.insert(at, uuid);
    proof {
        assert(table@ == before.subrange(0, at as int).push(uuid) + before.subrange(at as int, before.len() as int));
        assert forall|x: u128| table@.contains(x) <==> (before.contains(x) || x == uuid) by {
            if table@.contains(x) {
                let j = choose|j: int| 0 <= j < table@.len() && table@[j] == x;
                if j < at {
                    assert(before[j] == x);
                } else if j > at {
                    assert(before[j - 1] == x);
                }
            }
            if before.contains(x) {
                let i = choose|i: int| 0 <= i < before.len() && before[i] == x;
                if i < at {
                    assert(table@[i] == x);
                } else {
                    assert(table@[i + 1] == x);
                }
            }
            if x == uuid {
                assert(table@[at as int] == x);
            }
        }
    }
}

/// Index the nodes by uuid, reporting each node whose type nobody declares
/// and each node claiming an identity an earlier node holds, in node order.
/// What indexing the instances finds, in order: for each node, its type
/// when no plugin declares it, then its identity when an earlier node
/// already claimed it, each marking the node.
pub open spec fn instance_findings(registry: Registry, nodes: Seq<NodeInstance>) -> Seq<(Seq<char>, Seq<u128>)>
    decreases nodes.len(),
{
    if nodes.len() == 0 {
        Seq::empty()
    } else {
        let seen = nodes.drop_last();
        let node = nodes.last();
        let unknown = if type_of(registry, node) is None {
            seq![(unknown_type_message(name_in(registry, node), node.type_ref@), seq![node.uuid])]
        } else {
            Seq::empty()
        };
        let shared = if carried(seen, node.uuid) {
            seq![(shared_identity_message(name_in(registry, instance_with(seen, node.uuid)), name_in(registry, node), node.uuid), seq![node.uuid])]
        } else {
            Seq::empty()
        };
        instance_findings(registry, seen) + unknown + shared
    }
}

pub fn index_instances(nodes: &Vec<NodeInstance>, registry: &Registry, errors: &mut Vec<Problem>) -> (table: Vec<u128>)
    requires
        registry.wf(),
    ensures
        instance_table(nodes@, table@),
        final(errors)@.len() >= old(errors)@.len(),
        final(errors)@.subrange(0, old(errors)@.len() as int) == old(errors)@,
        final(errors)@.len() == old(errors)@.len() ==> instances_sound(nodes@, *registry),
        instances_sound(nodes@, *registry) ==> final(errors)@ == old(errors)@,
        reported(old(errors)@, final(errors)@, instance_findings(*registry, nodes@)),
{
    let ghost original = errors@;
    let mut table: Vec<u128> = Vec::new();
    proof {
        lemma_reported_none(original);
        assert(nodes@.subrange(0, 0) =~= Seq::<NodeInstance>::empty());
    }
    let mut k: usize = 0;
    while k < nodes.len()
        invariant
            registry.wf(),
            k <= nodes.len(),
            errors@.len() >= original.len(),
            errors@.subrange(0, original.len() as int) == original,
            ascending(table@),
            forall|uuid: u128| table@.contains(uuid) <==> carried(nodes@.subrange(0, k as int), uuid),
            errors@.len() == original.len() ==> forall|m: int| 0 <= m < k ==> type_of(*registry, #[trigger] nodes@[m]) is Some,
            errors@.len() == original.len() ==> forall|j: int, m: int| 0 <= j < m < k ==> (#[trigger] nodes@[j]).uuid != (#[trigger] nodes@[m]).uuid,
            original == old(errors)@,
            instances_sound(nodes@, *registry) ==> errors@ == original,
            reported(original, errors@, instance_findings(*registry, nodes@.subrange(0, k as int))),
        decreases nodes.len() - k,
    {
        let instance = &nodes[k];
        let ghost before = errors@;
        let ghost seen = nodes@.subrange(0, k as int);
        let ghost next = nodes@.subrange(0, k + 1);
        let ghost found_before = instance_findings(*registry, seen);
        proof {
            assert(next.drop_last() =~= seen);
            assert(next.last() == *instance);
            assert forall|uuid: u128| carried(next, uuid) <==> (carried(seen, uuid) || uuid == instance.uuid) by {
                if carried(next, uuid) {
                    let m = choose|m: int| 0 <= m < next.len() && #[trigger] next[m].uuid == uuid;
                    if m < k {
                        assert(seen[m].uuid == uuid);
                    }
                }
                if carried(seen, uuid) {
                    let m = choose|m: int| 0 <= m < seen.len() && #[trigger] seen[m].uuid == uuid;
                    assert(next[m].uuid == uuid);
                }
                if uuid == instance.uuid {
                    assert(next[k as int].uuid == uuid);
                }
            }
        }
        let node_type = type_label(registry, instance);
        proof {
            if instances_sound(nodes@, *registry) {
                assert(type_of(*registry, nodes@[k as int]) is Some);
            }
        }
        let ghost unknown: Seq<(Seq<char>, Seq<u128>)> = if type_of(*registry, *instance) is None {
            seq![(unknown_type_message(name_in(*registry, *instance), instance.type_ref@), seq![instance.uuid])]
        } else {
            Seq::empty()
        };
        if node_type.is_none() {
            let name = name_of(registry, instance);
            let message = unknown_type(&name, &instance.type_ref);
            errors.push(problem(message, instance.uuid));
            assert(errors@.subrange(0, original.len() as int) =~= before.subrange(0, original.len() as int));
            proof {
                lemma_reported_push(original, before, found_before, errors@.last(), unknown[0]);
                assert(found_before.push(unknown[0]) =~= found_before + unknown);
            }
        } else {
            assert(found_before + unknown =~= found_before);
        }
        let ghost middle = errors@;
        let ghost shared: Seq<(Seq<char>, Seq<u128>)> = if carried(seen, instance.uuid) {
            seq![(shared_identity_message(name_in(*registry, instance_with(seen, instance.uuid)), name_in(*registry, *instance), instance.uuid), seq![instance.uuid])]
        } else {
            Seq::empty()
        };
        assert(reported(original, middle, found_before + unknown));
        if table_holds(&table, instance.uuid) {
            proof {
                assert(carried(seen, instance.uuid));
                if instances_sound(nodes@, *registry) {
                    let m = choose|m: int| 0 <= m < seen.len() && #[trigger] seen[m].uuid == instance.uuid;
                    assert(nodes@[m].uuid == nodes@[k as int].uuid);
                }
            }
            match first_index(nodes, instance.uuid) {
                Some(first) => {
                    proof {
                        let m = choose|m: int| 0 <= m < seen.len() && #[trigger] seen[m].uuid == instance.uuid;
                        assert(nodes@[m].uuid == instance.uuid);
                        assert(first <= m);
                        assert(first_with(seen, instance.uuid, first as int));
                        lemma_first_with(seen, instance.uuid, first as int);
                    }
                    let first_name = name_of(registry, &nodes[first]);
                    let name = name_of(registry, instance);
                    let message = shared_identity(&first_name, &name, instance.uuid);
                    errors.push(problem(message, instance.uuid));
                    assert(errors@.subrange(0, original.len() as int) =~= middle.subrange(0, original.len() as int));
                    proof {
                        lemma_reported_push(original, middle, found_before + unknown, errors@.last(), shared[0]);
                        assert((found_before + unknown).push(shared[0]) =~= found_before + unknown + shared);
                    }
                },
                None => {
                    proof {
                        let m = choose|m: int| 0 <= m < seen.len() && #[trigger] seen[m].uuid == instance.uuid;
                        assert(nodes@[m].uuid == instance.uuid);
                    }
                },
            }
        } else {
            proof {
                assert forall|j: int| 0 <= j < k implies (#[trigger] nodes@[j]).uuid != instance.uuid by {
                    if nodes@[j].uuid == instance.uuid {
                        assert(seen[j].uuid == instance.uuid);
                        assert(carried(seen, instance.uuid));
                    }
                }
            }
            insert_key(&mut table, instance.uuid);
            assert(found_before + unknown + shared =~= found_before + unknown);
        }
        k = k + 1;
    }
    assert(nodes@.subrange(0, nodes.len() as int) =~= nodes@);
    table
}

} // verus!
