//! Port families: a set of one node type's ports sharing a family name
//! resolves, per instance, to one concrete type drawn from the members the
//! ports spell out. An exact agreement among the connected sources wins;
//! otherwise the first declared member every source reaches — connections
//! by one declared conversion, literals by fitting — walking the family's
//! declaration order, never registry order.

use vstd::prelude::*;
use vstd::string::StringExecFns;
use crate::edges::{endpoint_name, feed_position_for, fed_has, typed, Feed};
use crate::graph::{NodeInstance, ParameterValue};
use crate::instances::{instance_of, name_of, problem, type_label, Problem};
use crate::literal::{literal_resolution, resolve_literal};
use crate::model::{port, port_named, DataType, NodeType, Port};
use crate::parameters::{literal_display, quoted, quoted_text, signed_decimal, signed_text, FamilyLiteral, InstanceParameters};
use crate::registry::Registry;
use crate::resolve::{resolved, Resolved};
use crate::text::{contains_name, has_name, join_names, joined, same_text, views};

verus! {

/// One source a family's resolution must satisfy, fed into the family
/// input port the source names.
pub enum FamilySource {
    /// A connection whose type already resolved.
    Type(String, Resolved),
    /// A connection from an upstream family output: the concrete type is
    /// that instance's resolution, known only once it resolves.
    Deferred(String, u128, String),
    /// A parameter literal: it pins no type, but the resolved member must
    /// fit it.
    Literal(String, ParameterValue),
}

/// What one family's sources agreed on.
pub enum FamilyResolution {
    Resolved(Resolved),
    NoSource,
    Conflict,
}

/// The source is a connected type named `name`.
pub open spec fn type_named(source: FamilySource, name: Seq<char>) -> bool {
    match source {
        FamilySource::Type(_, r) => r.name@ == name,
        _ => false,
    }
}

/// The exact agreement: every source a connected type, all naming the same
/// declared member.
pub open spec fn exact_agreement(sources: Seq<FamilySource>, members: Seq<String>) -> Option<Resolved> {
    if sources.len() > 0 {
        match sources[0] {
            FamilySource::Type(_, first) => if (forall|i: int| 0 <= i < sources.len() ==> type_named(#[trigger] sources[i], first.name@))
                && has_name(members, first.name@) {
                Some(first)
            } else {
                None
            },
            _ => None,
        }
    } else {
        None
    }
}

/// Whether a source reaches the member `name`, registered as `target`: a
/// connected type by being it or by one declared conversion onto it, a
/// literal by fitting it.
pub open spec fn reaches(registry: Registry, source: FamilySource, name: String, target: DataType) -> bool {
    match source {
        FamilySource::Type(_, r) => r.name@ == name@ || (registry.data_type_of(r.name@) matches Some(d)
            && exists|k: int| 0 <= k < d.conversions@.len() && (#[trigger] d.conversions@[k]).target == target.id),
        FamilySource::Literal(_, literal) => literal_resolution(registry, literal, seq![name]) is Some,
        FamilySource::Deferred(..) => false,
    }
}

/// The first declared member, at index `i` or later, that the registry
/// knows and every source reaches.
pub open spec fn first_unified(registry: Registry, sources: Seq<FamilySource>, members: Seq<String>, i: int) -> Option<DataType>
    decreases members.len() - i,
{
    if i < 0 || i >= members.len() {
        None
    } else {
        match registry.data_type_of(members[i]@) {
            Some(target) => if forall|s: int| 0 <= s < sources.len() ==> reaches(registry, #[trigger] sources[s], members[i], target) {
                Some(target)
            } else {
                first_unified(registry, sources, members, i + 1)
            },
            None => first_unified(registry, sources, members, i + 1),
        }
    }
}

/// What a family's sources agree on.
pub open spec fn family_resolution(registry: Registry, sources: Seq<FamilySource>, members: Seq<String>) -> FamilyResolution {
    if sources.len() == 0 {
        FamilyResolution::NoSource
    } else {
        match exact_agreement(sources, members) {
            Some(r) => FamilyResolution::Resolved(r),
            None => match first_unified(registry, sources, members, 0) {
                Some(target) => FamilyResolution::Resolved(Resolved::of(target)),
                None => FamilyResolution::Conflict,
            },
        }
    }
}

fn agreement(sources: &Vec<FamilySource>, members: &Vec<String>) -> (found: Option<Resolved>)
    ensures
        found == exact_agreement(sources@, members@),
{
    if sources.len() == 0 {
        return None;
    }
    let first = match &sources[0] {
        FamilySource::Type(_, r) => r,
        _ => {
            return None;
        },
    };
    let mut i: usize = 0;
    while i < sources.len()
        invariant
            i <= sources.len(),
            sources@.len() > 0,
            sources@[0] is Type && sources@[0]->Type_1 == *first,
            forall|j: int| 0 <= j < i ==> type_named(#[trigger] sources@[j], first.name@),
        decreases sources.len() - i,
    {
        match &sources[i] {
            FamilySource::Type(_, r) => {
                if !same_text(r.name.as_str(), first.name.as_str()) {
                    return None;
                }
            },
            _ => {
                return None;
            },
        }
        i = i + 1;
    }
    if contains_name(members, first.name.as_str()) {
        Some(first.copy())
    } else {
        None
    }
}

fn converts_onto(data_type: &DataType, target: &DataType) -> (found: bool)
    ensures
        found == exists|k: int| 0 <= k < data_type.conversions@.len() && (#[trigger] data_type.conversions@[k]).target == target.id,
{
    let mut k: usize = 0;
    while k < data_type.conversions.len()
        invariant
            k <= data_type.conversions.len(),
            forall|j: int| 0 <= j < k ==> (#[trigger] data_type.conversions@[j]).target != target.id,
        decreases data_type.conversions.len() - k,
    {
        if data_type.conversions[k].target == target.id {
            return true;
        }
        k = k + 1;
    }
    false
}

fn source_reaches(registry: &Registry, source: &FamilySource, name: &String, target: &DataType) -> (found: bool)
    requires
        registry.wf(),
    ensures
        found == reaches(*registry, *source, *name, *target),
{
    match source {
        FamilySource::Type(_, r) => {
            if same_text(r.name.as_str(), name.as_str()) {
                return true;
            }
            match registry.data_type(r.name.as_str()) {
                Some(d) => converts_onto(d, target),
                None => false,
            }
        },
        FamilySource::Literal(_, literal) => {
            let declared = vec![name.clone()];
            assert(declared@ == seq![*name]);
            resolve_literal(literal, &declared, registry).is_some()
        },
        FamilySource::Deferred(..) => false,
    }
}

/// Resolve one family: an exact agreement wins, otherwise the first
/// declared member every source reaches, walking declaration order.
pub fn resolve_family(sources: &Vec<FamilySource>, members: &Vec<String>, registry: &Registry) -> (resolution: FamilyResolution)
    requires
        registry.wf(),
    ensures
        resolution == family_resolution(*registry, sources@, members@),
{
    if sources.len() == 0 {
        return FamilyResolution::NoSource;
    }
    match agreement(sources, members) {
        Some(r) => {
            return FamilyResolution::Resolved(r);
        },
        None => {},
    }
    let mut i: usize = 0;
    while i < members.len()
        invariant
            registry.wf(),
            i <= members.len(),
            sources@.len() > 0,
            exact_agreement(sources@, members@) is None,
            first_unified(*registry, sources@, members@, 0) == first_unified(*registry, sources@, members@, i as int),
        decreases members.len() - i,
    {
        match registry.data_type(members[i].as_str()) {
            Some(target) => {
                let mut s: usize = 0;
                let mut unified = true;
                while s < sources.len()
                    invariant
                        registry.wf(),
                        i < members.len(),
                        s <= sources.len(),
                        unified == forall|j: int| 0 <= j < s ==> reaches(*registry, #[trigger] sources@[j], members@[i as int], *target),
                    decreases sources.len() - s,
                {
                    if !source_reaches(registry, &sources[s], &members[i], target) {
                        unified = false;
                    }
                    s = s + 1;
                }
                if unified {
                    assert(first_unified(*registry, sources@, members@, i as int) == Some(*target));
                    return FamilyResolution::Resolved(resolved(target));
                }
            },
            None => {},
        }
        i = i + 1;
    }
    FamilyResolution::Conflict
}

/// One port family waiting to resolve on one node instance.
pub struct FamilyJob {
    pub node: u128,
    pub name: String,
    /// The members the family's ports declare, in declaration order.
    pub members: Vec<String>,
    /// The family's ports, for messages.
    pub ports: Vec<String>,
    /// What constrains the resolution: one source per fed family input.
    pub sources: Vec<FamilySource>,
}

/// A family's resolution: the node, the family, and the member.
pub struct FamilyMember {
    pub node: u128,
    pub family: String,
    pub member: Resolved,
}

/// The position of the first resolution of `node`'s `family`, or the
/// length.
pub open spec fn member_at(resolved: Seq<FamilyMember>, node: u128, family: Seq<char>) -> int
    decreases resolved.len(),
{
    if resolved.len() == 0 {
        0
    } else if resolved[0].node == node && resolved[0].family@ == family {
        0
    } else {
        1 + member_at(resolved.drop_first(), node, family)
    }
}

/// The member a family of a node resolved to, if it resolved: the first
/// resolution recorded for it.
pub fn member_of<'m>(resolved: &'m Vec<FamilyMember>, node: u128, family: &str) -> (found: Option<&'m Resolved>)
    ensures
        match found {
            Some(r) => exists|j: int| 0 <= j < resolved@.len() && (#[trigger] resolved@[j]).node == node
                && resolved@[j].family@ == family@ && resolved@[j].member == *r,
            None => forall|j: int| 0 <= j < resolved@.len() ==> !((#[trigger] resolved@[j]).node == node && resolved@[j].family@ == family@),
        },
        match found {
            Some(r) => member_at(resolved@, node, family@) < resolved@.len() && resolved@[member_at(resolved@, node, family@)].member == *r,
            None => member_at(resolved@, node, family@) == resolved@.len(),
        },
{
    let mut j: usize = 0;
    assert(resolved@.subrange(0, resolved@.len() as int) =~= resolved@);
    while j < resolved.len()
        invariant
            j <= resolved.len(),
            forall|m: int| 0 <= m < j ==> !((#[trigger] resolved@[m]).node == node && resolved@[m].family@ == family@),
            member_at(resolved@, node, family@) == j + member_at(resolved@.subrange(j as int, resolved@.len() as int), node, family@),
        decreases resolved.len() - j,
    {
        let ghost rest = resolved@.subrange(j as int, resolved@.len() as int);
        assert(rest.drop_first() =~= resolved@.subrange(j + 1, resolved@.len() as int));
        assert(rest[0] == resolved@[j as int]);
        if resolved[j].node == node && same_text(resolved[j].family.as_str(), family) {
            return Some(&resolved[j].member);
        }
        j = j + 1;
    }
    assert(resolved@.subrange(resolved@.len() as int, resolved@.len() as int).len() == 0);
    None
}

fn settled_in(failed: &Vec<(u128, String)>, node: u128, family: &str) -> (found: bool)
    ensures
        found == exists|j: int| 0 <= j < failed@.len() && (#[trigger] failed@[j]).0 == node && failed@[j].1@ == family@,
{
    let mut j: usize = 0;
    while j < failed.len()
        invariant
            j <= failed.len(),
            forall|m: int| 0 <= m < j ==> !((#[trigger] failed@[m]).0 == node && failed@[m].1@ == family@),
        decreases failed.len() - j,
    {
        if failed[j].0 == node && same_text(failed[j].1.as_str(), family) {
            return true;
        }
        j = j + 1;
    }
    false
}

/// Whether every member list of the ports is the same as the first's.
fn same_members(ports: &Vec<&Port>) -> (same: bool)
    requires
        ports@.len() > 0,
    ensures
        same == forall|j: int| 0 <= j < ports@.len() ==> views((#[trigger] ports@[j]).type_refs@) == views(ports@[0].type_refs@),
{
    let first = &ports[0].type_refs;
    let mut j: usize = 1;
    while j < ports.len()
        invariant
            1 <= j <= ports.len(),
            *first == ports@[0].type_refs,
            forall|m: int| 0 <= m < j ==> views((#[trigger] ports@[m]).type_refs@) == views(ports@[0].type_refs@),
        decreases ports.len() - j,
    {
        let other = &ports[j].type_refs;
        if other.len() != first.len() {
            assert(views(ports@[j as int].type_refs@).len() != views(ports@[0].type_refs@).len());
            return false;
        }
        let mut k: usize = 0;
        while k < first.len()
            invariant
                k <= first.len(),
                first.len() == other.len(),
                j < ports@.len(),
                *first == ports@[0].type_refs,
                *other == ports@[j as int].type_refs,
                forall|m: int| 0 <= m < k ==> first@[m]@ == other@[m]@,
            decreases first.len() - k,
        {
            if !same_text(first[k].as_str(), other[k].as_str()) {
                assert(views(other@)[k as int] != views(first@)[k as int]);
                assert(views(ports@[j as int].type_refs@) != views(ports@[0].type_refs@));
                return false;
            }
            k = k + 1;
        }
        assert(views(other@) =~= views(first@));
        j = j + 1;
    }
    true
}

/// The member sets of the ports, each joined by commas, the sets by
/// slashes.
pub open spec fn member_sets(ports: Seq<&Port>) -> Seq<char> {
    joined(Seq::new(ports.len(), |j: int| joined(views(ports[j].type_refs@), ", "@)), " / "@)
}

fn mixed_members(name: &String, family: &String, ports: &Vec<&Port>) -> (message: String)
    ensures
        message@ == "node "@ + name@ + ": the ports of its `"@ + family@ + "` family declare different member sets ("@
            + member_sets(ports@) + "); a family resolves across one shared set"@,
{
    let mut message = "node ".to_owned();
    message.append(name.as_str());
    message.append(": the ports of its `");
    message.append(family.as_str());
    message.append("` family declare different member sets (");
    let ghost start = message@;
    let ghost sets = Seq::new(ports@.len(), |j: int| joined(views(ports@[j].type_refs@), ", "@));
    let mut j: usize = 0;
    while j < ports.len()
        invariant
            j <= ports@.len(),
            sets == Seq::new(ports@.len(), |j: int| joined(views(ports@[j].type_refs@), ", "@)),
            message@ == start + joined(sets.subrange(0, j as int), " / "@),
        decreases ports.len() - j,
    {
        assert(sets.subrange(0, j + 1).drop_last() =~= sets.subrange(0, j as int));
        let ghost before = message@;
        if j > 0 {
            message.append(" / ");
        }
        let set = join_names(&ports[j].type_refs, ", ");
        message.append(set.as_str());
        assert(message@ =~= start + joined(sets.subrange(0, j + 1), " / "@));
        j = j + 1;
    }
    assert(sets.subrange(0, ports@.len() as int) =~= sets);
    message.append("); a family resolves across one shared set");
    message
}

/// A node type's ports, its inputs first, in declaration order.
fn inputs_then_outputs(t: &NodeType) -> (ports: Vec<&Port>)
    ensures
        ports@.len() == t.inputs@.len() + t.outputs@.len(),
        forall|i: int| 0 <= i < t.inputs@.len() ==> *(#[trigger] ports@[i]) == t.inputs@[i],
        forall|i: int| 0 <= i < t.outputs@.len() ==> *(#[trigger] ports@[t.inputs@.len() + i]) == t.outputs@[i],
{
    let mut ports: Vec<&Port> = Vec::new();
    let mut p: usize = 0;
    while p < t.inputs.len()
        invariant
            p <= t.inputs@.len(),
            ports@.len() == p,
            forall|i: int| 0 <= i < p ==> *(#[trigger] ports@[i]) == t.inputs@[i],
        decreases t.inputs.len() - p,
    {
        ports.push(&t.inputs[p]);
        p = p + 1;
    }
    let mut p: usize = 0;
    while p < t.outputs.len()
        invariant
            p <= t.outputs@.len(),
            ports@.len() == t.inputs@.len() + p,
            forall|i: int| 0 <= i < t.inputs@.len() ==> *(#[trigger] ports@[i]) == t.inputs@[i],
            forall|i: int| 0 <= i < p ==> *(#[trigger] ports@[t.inputs@.len() + i]) == t.outputs@[i],
        decreases t.outputs.len() - p,
    {
        ports.push(&t.outputs[p]);
        p = p + 1;
    }
    ports
}

/// A node type's ports, its inputs first.
pub open spec fn all_ports(t: NodeType) -> Seq<Port> {
    t.inputs@ + t.outputs@
}

/// The families the ports declare, each once, in the order their first
/// port declares them.
pub open spec fn family_names(ports: Seq<Port>) -> Seq<Seq<char>>
    decreases ports.len(),
{
    if ports.len() == 0 {
        Seq::empty()
    } else {
        let rest = family_names(ports.drop_last());
        match ports.last().family {
            Some(family) => if rest.contains(family@) { rest } else { rest.push(family@) },
            None => rest,
        }
    }
}

/// The ports of the family `family`, in order.
pub open spec fn family_ports(ports: Seq<Port>, family: Seq<char>) -> Seq<Port>
    decreases ports.len(),
{
    if ports.len() == 0 {
        Seq::empty()
    } else {
        let rest = family_ports(ports.drop_last(), family);
        if ports.last().family matches Some(f) && f@ == family { rest.push(ports.last()) } else { rest }
    }
}

/// What gathering finds of one family of node `uuid`, shown as `shown`: a
/// job — the node, the family, its ports' shared members and the ports'
/// names — or, where the ports declare different member sets, the error
/// saying so.
pub open spec fn family_outcome(t: NodeType, uuid: u128, shown: Seq<char>, family: Seq<char>)
    -> (Seq<(u128, Seq<char>, Seq<String>, Seq<String>)>, Seq<(Seq<char>, Seq<u128>)>)
{
    let ports = family_ports(all_ports(t), family);
    if ports.len() == 0 {
        (Seq::empty(), Seq::empty())
    } else if forall|j: int| 0 <= j < ports.len() ==> views((#[trigger] ports[j]).type_refs@) == views(ports[0].type_refs@) {
        (seq![(uuid, family, ports[0].type_refs@, ports.map_values(|p: Port| p.name))], Seq::empty())
    } else {
        (Seq::empty(), seq![(
            "node "@ + shown + ": the ports of its `"@ + family + "` family declare different member sets ("@
                + joined(Seq::new(ports.len(), |j: int| joined(views(ports[j].type_refs@), ", "@)), " / "@)
                + "); a family resolves across one shared set"@,
            seq![uuid],
        )])
    }
}

/// What gathering finds of the listed families, in order.
pub open spec fn families_outcome(t: NodeType, uuid: u128, shown: Seq<char>, families: Seq<Seq<char>>)
    -> (Seq<(u128, Seq<char>, Seq<String>, Seq<String>)>, Seq<(Seq<char>, Seq<u128>)>)
    decreases families.len(),
{
    if families.len() == 0 {
        (Seq::empty(), Seq::empty())
    } else {
        let rest = families_outcome(t, uuid, shown, families.drop_last());
        let last = family_outcome(t, uuid, shown, families.last());
        (rest.0 + last.0, rest.1 + last.1)
    }
}

/// What gathering finds over the table's typed instances, in table order.
pub open spec fn gathered(registry: Registry, nodes: Seq<NodeInstance>, table: Seq<u128>)
    -> (Seq<(u128, Seq<char>, Seq<String>, Seq<String>)>, Seq<(Seq<char>, Seq<u128>)>)
    decreases table.len(),
{
    if table.len() == 0 {
        (Seq::empty(), Seq::empty())
    } else {
        let rest = gathered(registry, nodes, table.drop_last());
        let uuid = table.last();
        if crate::instances::carried(nodes, uuid) {
            let instance = crate::instances::instance_with(nodes, uuid);
            match crate::instances::type_of(registry, instance) {
                Some(t) => {
                    let found = families_outcome(t, uuid, crate::instances::name_in(registry, instance), family_names(all_ports(t)));
                    (rest.0 + found.0, rest.1 + found.1)
                },
                None => rest,
            }
        } else {
            rest
        }
    }
}

/// The jobs have the shapes listed: node, family, members and port names.
pub open spec fn jobs_shaped(jobs: Seq<FamilyJob>, shapes: Seq<(u128, Seq<char>, Seq<String>, Seq<String>)>) -> bool {
    &&& jobs.len() == shapes.len()
    &&& forall|j: int| 0 <= j < jobs.len() ==> {
        &&& (#[trigger] jobs[j]).node == shapes[j].0
        &&& jobs[j].name@ == shapes[j].1
        &&& jobs[j].members@ == shapes[j].2
        &&& jobs[j].ports@ == shapes[j].3
    }
}

proof fn lemma_jobs_shaped_push(jobs: Seq<FamilyJob>, shapes: Seq<(u128, Seq<char>, Seq<String>, Seq<String>)>, job: FamilyJob,
    shape: (u128, Seq<char>, Seq<String>, Seq<String>))
    requires
        jobs_shaped(jobs, shapes),
        job.node == shape.0,
        job.name@ == shape.1,
        job.members@ == shape.2,
        job.ports@ == shape.3,
    ensures
        jobs_shaped(jobs.push(job), shapes + seq![shape]),
{
    assert forall|j: int| 0 <= j < jobs.push(job).len() implies {
        &&& (#[trigger] jobs.push(job)[j]).node == (shapes + seq![shape])[j].0
        &&& jobs.push(job)[j].name@ == (shapes + seq![shape])[j].1
        &&& jobs.push(job)[j].members@ == (shapes + seq![shape])[j].2
        &&& jobs.push(job)[j].ports@ == (shapes + seq![shape])[j].3
    } by {
        if j < jobs.len() {
            assert(jobs.push(job)[j] == jobs[j]);
            assert((shapes + seq![shape])[j] == shapes[j]);
        }
    }
}

proof fn lemma_has_name_views(names: Seq<String>, name: Seq<char>)
    ensures
        has_name(names, name) <==> views(names).contains(name),
{
    if has_name(names, name) {
        let i = choose|i: int| 0 <= i < names.len() && #[trigger] names[i]@ == name;
        assert(views(names)[i] == name);
    }
    if views(names).contains(name) {
        let i = choose|i: int| 0 <= i < views(names).len() && views(names)[i] == name;
        assert(names[i]@ == name);
    }
}

/// No node type the instances instantiate declares a port family.
pub open spec fn family_free(registry: Registry, nodes: Seq<NodeInstance>) -> bool {
    forall|k: int| 0 <= k < nodes.len() ==> match crate::instances::type_of(registry, #[trigger] nodes[k]) {
        Some(t) => forall|p: int| 0 <= p < all_ports(t).len() ==> (#[trigger] all_ports(t)[p]).family is None,
        None => true,
    }
}

/// The type an instance of a family-free definition has declares no
/// family.
pub proof fn lemma_typed_family_free(registry: Registry, nodes: Seq<NodeInstance>, uuid: u128)
    requires
        family_free(registry, nodes),
        typed(registry, nodes, uuid) is Some,
    ensures
        forall|p: int| 0 <= p < all_ports(typed(registry, nodes, uuid).unwrap()).len()
            ==> (#[trigger] all_ports(typed(registry, nodes, uuid).unwrap())[p]).family is None,
{
    let k = choose|k: int| 0 <= k < nodes.len() && #[trigger] nodes[k].uuid == uuid;
    crate::instances::lemma_carried(nodes, uuid, k);
    let f = choose|f: int| 0 <= f < nodes.len() && crate::instances::instance_with(nodes, uuid) == #[trigger] nodes[f];
    assert(crate::instances::type_of(registry, nodes[f]) is Some);
}

proof fn lemma_family_names_empty(ports: Seq<Port>)
    requires
        forall|p: int| 0 <= p < ports.len() ==> (#[trigger] ports[p]).family is None,
    ensures
        family_names(ports) == Seq::<Seq<char>>::empty(),
    decreases ports.len(),
{
    if ports.len() > 0 {
        assert forall|p: int| 0 <= p < ports.drop_last().len() implies (#[trigger] ports.drop_last()[p]).family is None by {
            assert(ports.drop_last()[p] == ports[p]);
        }
        lemma_family_names_empty(ports.drop_last());
        assert(ports.last() == ports[ports.len() - 1]);
    }
}

/// A family-free definition gathers no job and reports nothing.
pub proof fn lemma_gathered_empty(registry: Registry, nodes: Seq<NodeInstance>, table: Seq<u128>)
    requires
        family_free(registry, nodes),
    ensures
        gathered(registry, nodes, table).0.len() == 0,
        gathered(registry, nodes, table).1.len() == 0,
    decreases table.len(),
{
    if table.len() > 0 {
        lemma_gathered_empty(registry, nodes, table.drop_last());
        let uuid = table.last();
        if crate::instances::carried(nodes, uuid) {
            let instance = crate::instances::instance_with(nodes, uuid);
            match crate::instances::type_of(registry, instance) {
                Some(t) => {
                    assert(typed(registry, nodes, uuid) == Some(t));
                    lemma_typed_family_free(registry, nodes, uuid);
                    lemma_family_names_empty(all_ports(t));
                    let found = families_outcome(t, uuid, crate::instances::name_in(registry, instance), family_names(all_ports(t)));
                    assert(found == (Seq::<(u128, Seq<char>, Seq<String>, Seq<String>)>::empty(), Seq::<(Seq<char>, Seq<u128>)>::empty()));
                },
                None => {},
            }
        }
    }
}

/// Gather the port families of every typed instance, in table order: the
/// family's ports, their shared members, and the sources constraining the
/// family — a connected type, a connection from an upstream family output,
/// or a parameter literal. A family whose ports declare different member
/// sets is reported instead.
#[verifier::spinoff_prover]
pub fn family_jobs(
    nodes: &Vec<NodeInstance>,
    table: &Vec<u128>,
    fed: &Vec<Feed>,
    compiled: &Vec<InstanceParameters>,
    registry: &Registry,
    errors: &mut Vec<Problem>,
) -> (jobs: Vec<FamilyJob>)
    requires
        registry.wf(),
    ensures
        final(errors)@.len() >= old(errors)@.len(),
        final(errors)@.subrange(0, old(errors)@.len() as int) == old(errors)@,
        jobs_shaped(jobs@, gathered(*registry, nodes@, table@).0),
        crate::instances::reported(old(errors)@, final(errors)@, gathered(*registry, nodes@, table@).1),
        jobs_literal(*registry, nodes@, fed@, compiled@, jobs@),
{
    let ghost original = errors@;
    let mut jobs: Vec<FamilyJob> = Vec::new();
    proof {
        crate::instances::lemma_reported_none(original);
        assert(table@.subrange(0, 0) =~= Seq::<u128>::empty());
    }
    let mut i: usize = 0;
    while i < table.len()
        invariant
            registry.wf(),
            i <= table.len(),
            original == old(errors)@,
            errors@.len() >= original.len(),
            errors@.subrange(0, original.len() as int) == original,
            jobs_shaped(jobs@, gathered(*registry, nodes@, table@.subrange(0, i as int)).0),
            crate::instances::reported(original, errors@, gathered(*registry, nodes@, table@.subrange(0, i as int)).1),
            forall|j: int| 0 <= j < jobs@.len() ==> literal_job(*registry, nodes@, fed@, compiled@, #[trigger] jobs@[j]),
        decreases table.len() - i,
    {
        let ghost done = gathered(*registry, nodes@, table@.subrange(0, i as int));
        proof {
            assert(table@.subrange(0, i + 1).drop_last() =~= table@.subrange(0, i as int));
            assert(table@.subrange(0, i + 1).last() == table@[i as int]);
        }
        let uuid = table[i];
        let instance = match instance_of(nodes, uuid) {
            Some(instance) => instance,
            None => {
                assert(gathered(*registry, nodes@, table@.subrange(0, i + 1)) == done);
                i = i + 1;
                continue;
            },
        };
        let t = match type_label(registry, instance) {
            Some(t) => t,
            None => {
                assert(gathered(*registry, nodes@, table@.subrange(0, i + 1)) == done);
                i = i + 1;
                continue;
            },
        };
        let ghost shown = crate::instances::name_in(*registry, *instance);
        let declared_ports = inputs_then_outputs(t);
        let ghost all = all_ports(*t);
        proof {
            assert forall|k: int| 0 <= k < declared_ports@.len() implies *(#[trigger] declared_ports@[k]) == all[k] by {
                if k < t.inputs@.len() {
                    assert(*declared_ports@[k] == t.inputs@[k]);
                } else {
                    assert(*declared_ports@[t.inputs@.len() + (k - t.inputs@.len())] == t.outputs@[k - t.inputs@.len()]);
                }
            }
            assert(all.subrange(0, 0) =~= Seq::<Port>::empty());
        }
        // The family names in the order their first port declares them.
        let mut families: Vec<String> = Vec::new();
        let mut p: usize = 0;
        while p < declared_ports.len()
            invariant
                p <= declared_ports@.len(),
                declared_ports@.len() == all.len(),
                forall|k: int| 0 <= k < declared_ports@.len() ==> *(#[trigger] declared_ports@[k]) == all[k],
                views(families@) == family_names(all.subrange(0, p as int)),
            decreases declared_ports.len() - p,
        {
            proof {
                assert(all.subrange(0, p + 1).drop_last() =~= all.subrange(0, p as int));
                assert(all.subrange(0, p + 1).last() == all[p as int]);
            }
            let declared = declared_ports[p];
            match &declared.family {
                Some(family) => {
                    proof {
                        lemma_has_name_views(families@, family@);
                    }
                    if !contains_name(&families, family.as_str()) {
                        families.push(family.clone());
                        assert(views(families@) =~= family_names(all.subrange(0, p + 1)));
                    }
                },
                None => {},
            }
            p = p + 1;
        }
        proof {
            assert(all.subrange(0, all.len() as int) =~= all);
            assert(views(families@).subrange(0, 0) =~= Seq::<Seq<char>>::empty());
            crate::instances::lemma_reported_none(errors@);
        }
        let ghost names_all = views(families@);
        let ghost jobs_before = jobs@;
        let ghost errors_before = errors@;
        let mut f: usize = 0;
        while f < families.len()
            invariant
                registry.wf(),
                f <= families@.len(),
                names_all == views(families@),
                names_all == family_names(all),
                declared_ports@.len() == all.len(),
                forall|k: int| 0 <= k < declared_ports@.len() ==> *(#[trigger] declared_ports@[k]) == all[k],
                all == all_ports(*t),
                original == old(errors)@,
                errors@.len() >= original.len(),
                errors@.subrange(0, original.len() as int) == original,
                jobs_shaped(jobs_before, done.0),
                crate::instances::reported(original, errors_before, done.1),
                jobs@.len() >= jobs_before.len(),
                jobs@.subrange(0, jobs_before.len() as int) == jobs_before,
                jobs_shaped(jobs@.subrange(jobs_before.len() as int, jobs@.len() as int),
                    families_outcome(*t, uuid, shown, names_all.subrange(0, f as int)).0),
                crate::instances::reported(errors_before, errors@, families_outcome(*t, uuid, shown, names_all.subrange(0, f as int)).1),
                shown == crate::instances::name_in(*registry, *instance),
                forall|j: int| 0 <= j < jobs@.len() ==> literal_job(*registry, nodes@, fed@, compiled@, #[trigger] jobs@[j]),
                typed(*registry, nodes@, uuid) == Some(*t),
            decreases families.len() - f,
        {
            let family = &families[f];
            let ghost fam = family@;
            let ghost outcome = family_outcome(*t, uuid, shown, fam);
            let ghost so_far = families_outcome(*t, uuid, shown, names_all.subrange(0, f as int));
            proof {
                assert(names_all.subrange(0, f + 1).drop_last() =~= names_all.subrange(0, f as int));
                assert(names_all.subrange(0, f + 1).last() == fam);
                assert(families_outcome(*t, uuid, shown, names_all.subrange(0, f + 1)) == (so_far.0 + outcome.0, so_far.1 + outcome.1));
            }
            let mut ports: Vec<&Port> = Vec::new();
            let mut p: usize = 0;
            while p < declared_ports.len()
                invariant
                    p <= declared_ports@.len(),
                    declared_ports@.len() == all.len(),
                    forall|k: int| 0 <= k < declared_ports@.len() ==> *(#[trigger] declared_ports@[k]) == all[k],
                    fam == family@,
                    ports@.len() == family_ports(all.subrange(0, p as int), fam).len(),
                    forall|k: int| 0 <= k < ports@.len() ==> *(#[trigger] ports@[k]) == family_ports(all.subrange(0, p as int), fam)[k],
                decreases declared_ports.len() - p,
            {
                proof {
                    assert(all.subrange(0, p + 1).drop_last() =~= all.subrange(0, p as int));
                    assert(all.subrange(0, p + 1).last() == all[p as int]);
                }
                let declared = declared_ports[p];
                match &declared.family {
                    Some(name) => {
                        if same_text(name.as_str(), family.as_str()) {
                            ports.push(declared);
                        }
                    },
                    None => {},
                }
                p = p + 1;
            }
            let ghost fp = family_ports(all, fam);
            proof {
                assert(all.subrange(0, all.len() as int) =~= all);
            }
            if ports.len() == 0 {
                proof {
                    assert(outcome.0 =~= Seq::<(u128, Seq<char>, Seq<String>, Seq<String>)>::empty());
                    assert(outcome.1 =~= Seq::<(Seq<char>, Seq<u128>)>::empty());
                    assert(so_far.0 + outcome.0 =~= so_far.0);
                    assert(so_far.1 + outcome.1 =~= so_far.1);
                }
                f = f + 1;
                continue;
            }
            if !same_members(&ports) {
                let name = name_of(registry, instance);
                let message = mixed_members(&name, family, &ports);
                let ghost before = errors@;
                errors.push(problem(message, uuid));
                assert(errors@.subrange(0, original.len() as int) =~= before.subrange(0, original.len() as int));
                proof {
                    assert(!(forall|j: int| 0 <= j < fp.len() ==> views((#[trigger] fp[j]).type_refs@) == views(fp[0].type_refs@))) by {
                        let j = choose|j: int| !(0 <= j < ports@.len() ==> views((#[trigger] ports@[j]).type_refs@) == views(ports@[0].type_refs@));
                        assert(*ports@[j] == fp[j]);
                        assert(*ports@[0] == fp[0]);
                    }
                    assert(member_sets(ports@) =~= joined(Seq::new(fp.len(), |j: int| joined(views(fp[j].type_refs@), ", "@)), " / "@)) by {
                        assert(Seq::new(ports@.len(), |j: int| joined(views(ports@[j].type_refs@), ", "@))
                            =~= Seq::new(fp.len(), |j: int| joined(views(fp[j].type_refs@), ", "@)));
                    }
                    crate::instances::lemma_reported_push(errors_before, before, so_far.1, errors@.last(), outcome.1[0]);
                    assert(so_far.1.push(outcome.1[0]) =~= so_far.1 + outcome.1);
                    assert(outcome.0 =~= Seq::<(u128, Seq<char>, Seq<String>, Seq<String>)>::empty());
                    assert(so_far.0 + outcome.0 =~= so_far.0);
                }
                f = f + 1;
                continue;
            }
            proof {
                assert(forall|j: int| 0 <= j < fp.len() ==> views((#[trigger] fp[j]).type_refs@) == views(fp[0].type_refs@)) by {
                    assert forall|j: int| 0 <= j < fp.len() implies views((#[trigger] fp[j]).type_refs@) == views(fp[0].type_refs@) by {
                        assert(*ports@[j] == fp[j]);
                        assert(*ports@[0] == fp[0]);
                        assert(views(ports@[j].type_refs@) == views(ports@[0].type_refs@));
                    }
                }
            }
            let mut sources: Vec<FamilySource> = Vec::new();
            let mut names: Vec<String> = Vec::new();
            let mut q: usize = 0;
            while q < ports.len()
                invariant
                    registry.wf(),
                    q <= ports@.len(),
                    ports@.len() == fp.len(),
                    forall|k: int| 0 <= k < ports@.len() ==> *(#[trigger] ports@[k]) == fp[k],
                    names@ == fp.map_values(|p: Port| p.name).subrange(0, q as int),
                    (forall|p: Seq<char>| !fed_has(fed@, uuid, p)) ==> sources@ == literal_sources(compiled@, uuid, fp.subrange(0, q as int), t.inputs@),
                decreases ports.len() - q,
            {
                proof {
                    assert(fp.subrange(0, q + 1).drop_last() =~= fp.subrange(0, q as int));
                    assert(fp.subrange(0, q + 1).last() == fp[q as int]);
                }
                let member_port = ports[q];
                assert(*member_port == fp[q as int]);
                names.push(member_port.name.clone());
                proof {
                    assert(names@ =~= fp.map_values(|p: Port| p.name).subrange(0, q + 1));
                }
                if port(&t.inputs, member_port.name.as_str()).is_some() {
                    match feed_position_for(fed, uuid, member_port.name.as_str()) {
                        Some(j) => {
                            assert(fed_has(fed@, uuid, member_port.name@));
                            match &fed[j].source {
                                Some((from, from_port, resolved_type)) => {
                                    let upstream = match instance_of(nodes, *from) {
                                        Some(up) => match type_label(registry, up) {
                                            Some(up_type) => match port(&up_type.outputs, from_port.as_str()) {
                                                Some(output) => match &output.family {
                                                    Some(up_family) => Some(up_family.clone()),
                                                    None => None,
                                                },
                                                None => None,
                                            },
                                            None => None,
                                        },
                                        None => None,
                                    };
                                    match upstream {
                                        Some(up_family) => sources.push(FamilySource::Deferred(member_port.name.clone(), *from, up_family)),
                                        None => sources.push(FamilySource::Type(member_port.name.clone(), resolved_type.copy())),
                                    }
                                },
                                None => {
                                    literal_source(compiled, uuid, &member_port.name, &mut sources);
                                },
                            }
                        },
                        None => {
                            literal_source(compiled, uuid, &member_port.name, &mut sources);
                        },
                    }
                }
                q = q + 1;
            }
            let mut members: Vec<String> = Vec::new();
            let first = &ports[0].type_refs;
            let mut m: usize = 0;
            while m < first.len()
                invariant
                    m <= first@.len(),
                    members@ == first@.subrange(0, m as int),
                decreases first.len() - m,
            {
                members.push(first[m].clone());
                proof {
                    assert(members@ =~= first@.subrange(0, m + 1));
                }
                m = m + 1;
            }
            proof {
                assert(first@.subrange(0, first@.len() as int) =~= first@);
                assert(names@ =~= fp.map_values(|p: Port| p.name));
                assert(*ports@[0] == fp[0]);
            }
            let ghost jobs_mid = jobs@;
            proof {
                assert(fp.subrange(0, fp.len() as int) =~= fp);
            }
            jobs.push(FamilyJob { node: uuid, name: family.clone(), members, ports: names, sources });
            proof {
                assert forall|j: int| 0 <= j < jobs@.len() implies literal_job(*registry, nodes@, fed@, compiled@, #[trigger] jobs@[j]) by {
                    if j < jobs_mid.len() {
                        assert(jobs@[j] == jobs_mid[j]);
                    }
                }
            }
            proof {
                let shape = (uuid, fam, fp[0].type_refs@, fp.map_values(|p: Port| p.name));
                assert(outcome.0 =~= seq![shape]);
                assert(outcome.1 =~= Seq::<(Seq<char>, Seq<u128>)>::empty());
                assert(so_far.1 + outcome.1 =~= so_far.1);
                assert(jobs@.subrange(0, jobs_before.len() as int) =~= jobs_mid.subrange(0, jobs_before.len() as int));
                assert(jobs@.subrange(jobs_before.len() as int, jobs@.len() as int)
                    =~= jobs_mid.subrange(jobs_before.len() as int, jobs_mid.len() as int).push(jobs@.last()));
                lemma_jobs_shaped_push(jobs_mid.subrange(jobs_before.len() as int, jobs_mid.len() as int), so_far.0, jobs@.last(), shape);
            }
            f = f + 1;
        }
        proof {
            assert(names_all.subrange(0, names_all.len() as int) =~= names_all);
            let found = families_outcome(*t, uuid, shown, names_all);
            assert(gathered(*registry, nodes@, table@.subrange(0, i + 1)) == (done.0 + found.0, done.1 + found.1));
            crate::instances::lemma_reported_chain(original, errors_before, errors@, done.1, found.1);
            assert(jobs@ =~= jobs_before + jobs@.subrange(jobs_before.len() as int, jobs@.len() as int));
            assert forall|j: int| 0 <= j < jobs@.len() implies {
                &&& (#[trigger] jobs@[j]).node == (done.0 + found.0)[j].0
                &&& jobs@[j].name@ == (done.0 + found.0)[j].1
                &&& jobs@[j].members@ == (done.0 + found.0)[j].2
                &&& jobs@[j].ports@ == (done.0 + found.0)[j].3
            } by {
                if j < jobs_before.len() {
                    assert(jobs@[j] == jobs_before[j]);
                    assert((done.0 + found.0)[j] == done.0[j]);
                } else {
                    let tail = jobs@.subrange(jobs_before.len() as int, jobs@.len() as int);
                    assert(jobs@[j] == tail[j - jobs_before.len()]);
                    assert((done.0 + found.0)[j] == found.0[j - jobs_before.len()]);
                }
            }
        }
        i = i + 1;
    }
    assert(table@.subrange(0, table.len() as int) =~= table@);
    proof {
        reveal(jobs_literal);
    }
    jobs
}

/// The first literal held for `input`, if any.
pub open spec fn literal_held(literals: Seq<FamilyLiteral>, input: Seq<char>) -> Option<FamilyLiteral>
    decreases literals.len(),
{
    if literals.len() == 0 {
        None
    } else if literals[0].input@ == input {
        Some(literals[0])
    } else {
        literal_held(literals.drop_first(), input)
    }
}

/// The literal the first entry for `uuid` holds for `input`, if any.
pub open spec fn instance_literal(compiled: Seq<InstanceParameters>, uuid: u128, input: Seq<char>) -> Option<FamilyLiteral>
    decreases compiled.len(),
{
    if compiled.len() == 0 {
        None
    } else if compiled[0].uuid == uuid {
        literal_held(compiled[0].literals@, input)
    } else {
        instance_literal(compiled.drop_first(), uuid, input)
    }
}

/// Add the literal an instance holds for a family input, if it holds one.
fn literal_source(compiled: &Vec<InstanceParameters>, uuid: u128, input: &String, sources: &mut Vec<FamilySource>)
    ensures
        match instance_literal(compiled@, uuid, input@) {
            Some(l) => final(sources)@ == old(sources)@.push(FamilySource::Literal(l.input, l.literal)),
            None => final(sources)@ == old(sources)@,
        },
{
    let mut j: usize = 0;
    assert(compiled@.subrange(0, compiled@.len() as int) =~= compiled@);
    while j < compiled.len()
        invariant
            j <= compiled.len(),
            *sources == *old(sources),
            instance_literal(compiled@, uuid, input@) == instance_literal(compiled@.subrange(j as int, compiled@.len() as int), uuid, input@),
        decreases compiled.len() - j,
    {
        let ghost rest = compiled@.subrange(j as int, compiled@.len() as int);
        assert(rest.drop_first() =~= compiled@.subrange(j + 1, compiled@.len() as int));
        assert(rest[0] == compiled@[j as int]);
        if compiled[j].uuid == uuid {
            let literals = &compiled[j].literals;
            let mut k: usize = 0;
            assert(literals@.subrange(0, literals@.len() as int) =~= literals@);
            while k < literals.len()
                invariant
                    k <= literals.len(),
                    *sources == *old(sources),
                    instance_literal(compiled@, uuid, input@) == literal_held(literals@.subrange(k as int, literals@.len() as int), input@),
                decreases literals.len() - k,
            {
                let ghost tail = literals@.subrange(k as int, literals@.len() as int);
                assert(tail.drop_first() =~= literals@.subrange(k + 1, literals@.len() as int));
                assert(tail[0] == literals@[k as int]);
                if same_text(literals[k].input.as_str(), input.as_str()) {
                    sources.push(FamilySource::Literal(literals[k].input.clone(), literals[k].literal.copy()));
                    return;
                }
                k = k + 1;
            }
            assert(literals@.subrange(literals@.len() as int, literals@.len() as int).len() == 0);
            return;
        }
        j = j + 1;
    }
    assert(compiled@.subrange(compiled@.len() as int, compiled@.len() as int).len() == 0);
}

/// How a message shows a literal the way `{:?}` shows a parameter value.
pub open spec fn literal_debug(literal: ParameterValue) -> Seq<char> {
    match literal {
        ParameterValue::Bool(b) => "Bool("@ + (if b { "true"@ } else { "false"@ }) + ")"@,
        ParameterValue::Int(v) => "Int("@ + signed_decimal(v as int) + ")"@,
        ParameterValue::Float(f) => "Float("@ + f.text@ + ")"@,
        ParameterValue::Str(s) => "Str("@ + quoted_text(s@) + ")"@,
    }
}

fn literal_debug_text(literal: &ParameterValue) -> (text: String)
    ensures
        text@ == literal_debug(*literal),
{
    let (open, inner) = match literal {
        ParameterValue::Bool(b) => ("Bool(", if *b { "true".to_owned() } else { "false".to_owned() }),
        ParameterValue::Int(v) => ("Int(", signed_text(*v)),
        ParameterValue::Float(f) => ("Float(", f.text.clone()),
        ParameterValue::Str(s) => ("Str(", quoted(s.as_str())),
    };
    let mut text = open.to_owned();
    text.append(inner.as_str());
    text.append(")");
    text
}

/// How a conflict message describes one source.
pub open spec fn description(registry: Registry, nodes: Seq<NodeInstance>, source: FamilySource) -> Seq<char> {
    match source {
        FamilySource::Type(port, r) => "`"@ + port@ + "` carries "@ + r.name@,
        FamilySource::Deferred(port, uuid, family) => "`"@ + port@ + "` waits on node "@
            + endpoint_name(registry, nodes, uuid) + "'s `"@ + family@ + "` family"@,
        FamilySource::Literal(port, literal) => "`"@ + port@ + "` holds the literal "@ + literal_debug(literal),
    }
}

fn describe(registry: &Registry, nodes: &Vec<NodeInstance>, source: &FamilySource) -> (text: String)
    requires
        registry.wf(),
    ensures
        text@ == description(*registry, nodes@, *source),
{
    let mut text = "`".to_owned();
    match source {
        FamilySource::Type(port, r) => {
            text.append(port.as_str());
            text.append("` carries ");
            text.append(r.name.as_str());
        },
        FamilySource::Deferred(port, uuid, family) => {
            text.append(port.as_str());
            text.append("` waits on node ");
            let name = crate::edges::endpoint_text(registry, nodes, *uuid);
            text.append(name.as_str());
            text.append("'s `");
            text.append(family.as_str());
            text.append("` family");
        },
        FamilySource::Literal(port, literal) => {
            text.append(port.as_str());
            text.append("` holds the literal ");
            let shown = literal_debug_text(literal);
            text.append(shown.as_str());
        },
    }
    text
}

/// Each name in backticks.
pub open spec fn ticked(names: Seq<String>) -> Seq<Seq<char>> {
    Seq::new(names.len(), |j: int| "`"@ + names[j]@ + "`"@)
}

/// What a family with no source is reported as: the node named with its
/// uuid, the family, and its ports.
pub open spec fn no_source_message(name: Seq<char>, job: FamilyJob) -> Seq<char> {
    "node "@ + name + " ("@ + crate::ids::hyphenated(job.node) + "): the ports of its `"@ + job.name@ + "` family ("@
        + joined(ticked(job.ports@), ", "@) + ") carry no connection and no parameter value — the family cannot resolve to a type"@
}

fn no_source(name: &String, job: &FamilyJob) -> (message: String)
    ensures
        message@ == no_source_message(name@, *job),
{
    let mut message = "node ".to_owned();
    message.append(name.as_str());
    message.append(" (");
    let id = crate::ids::uuid_text(job.node);
    message.append(id.as_str());
    message.append("): the ports of its `");
    message.append(job.name.as_str());
    message.append("` family (");
    let ghost start = message@;
    let mut j: usize = 0;
    while j < job.ports.len()
        invariant
            j <= job.ports@.len(),
            message@ == start + joined(ticked(job.ports@.subrange(0, j as int)), ", "@),
        decreases job.ports.len() - j,
    {
        assert(ticked(job.ports@.subrange(0, j + 1)).drop_last() =~= ticked(job.ports@.subrange(0, j as int)));
        assert(ticked(job.ports@.subrange(0, j + 1)).last() == "`"@ + job.ports@[j as int]@ + "`"@);
        if j > 0 {
            message.append(", ");
        }
        message.append("`");
        message.append(job.ports[j].as_str());
        message.append("`");
        assert(message@ =~= start + joined(ticked(job.ports@.subrange(0, j + 1)), ", "@));
        j = j + 1;
    }
    assert(job.ports@.subrange(0, job.ports@.len() as int) =~= job.ports@);
    message.append(") carry no connection and no parameter value — the family cannot resolve to a type");
    message
}

/// Each source as a conflict message describes it.
pub open spec fn descriptions(registry: Registry, nodes: Seq<NodeInstance>, sources: Seq<FamilySource>) -> Seq<Seq<char>> {
    Seq::new(sources.len(), |j: int| description(registry, nodes, sources[j]))
}

/// What a family whose sources disagree is reported as: the node named
/// with its uuid, the family, and every source described.
pub open spec fn conflict_message(registry: Registry, nodes: Seq<NodeInstance>, name: Seq<char>, job: FamilyJob) -> Seq<char> {
    "node "@ + name + " ("@ + crate::ids::hyphenated(job.node) + "): the ports of its `"@ + job.name@
        + "` family cannot resolve to one type — "@ + joined(descriptions(registry, nodes, job.sources@), ", "@)
}

fn conflict(registry: &Registry, nodes: &Vec<NodeInstance>, name: &String, job: &FamilyJob) -> (message: String)
    requires
        registry.wf(),
    ensures
        message@ == conflict_message(*registry, nodes@, name@, *job),
{
    let mut message = "node ".to_owned();
    message.append(name.as_str());
    message.append(" (");
    let id = crate::ids::uuid_text(job.node);
    message.append(id.as_str());
    message.append("): the ports of its `");
    message.append(job.name.as_str());
    message.append("` family cannot resolve to one type — ");
    let ghost start = message@;
    let mut j: usize = 0;
    while j < job.sources.len()
        invariant
            registry.wf(),
            j <= job.sources@.len(),
            message@ == start + joined(descriptions(*registry, nodes@, job.sources@.subrange(0, j as int)), ", "@),
        decreases job.sources.len() - j,
    {
        assert(descriptions(*registry, nodes@, job.sources@.subrange(0, j + 1)).drop_last()
            =~= descriptions(*registry, nodes@, job.sources@.subrange(0, j as int)));
        if j > 0 {
            message.append(", ");
        }
        let text = describe(registry, nodes, &job.sources[j]);
        message.append(text.as_str());
        assert(message@ =~= start + joined(descriptions(*registry, nodes@, job.sources@.subrange(0, j + 1)), ", "@));
        j = j + 1;
    }
    assert(job.sources@.subrange(0, job.sources@.len() as int) =~= job.sources@);
    message
}

/// Whether each member the families resolved to is declared by its family.
pub open spec fn members_declared(jobs: Seq<FamilyJob>, resolved: Seq<FamilyMember>) -> bool {
    forall|r: int| 0 <= r < resolved.len() ==> exists|j: int| 0 <= j < jobs.len()
        && (#[trigger] jobs[j]).node == (#[trigger] resolved[r]).node && jobs[j].name@ == resolved[r].family@
        && has_name(jobs[j].members@, resolved[r].member.name@)
}

/// Whether a resolution of `node`'s `family` is recorded.
pub open spec fn is_resolved(resolved: Seq<FamilyMember>, node: u128, family: Seq<char>) -> bool {
    exists|r: int| 0 <= r < resolved.len() && (#[trigger] resolved[r]).node == node && resolved[r].family@ == family
}

/// Whether `node`'s `family` is recorded as failed.
spec fn has_failed(failed: Seq<(u128, String)>, node: u128, family: Seq<char>) -> bool {
    exists|f: int| 0 <= f < failed.len() && (#[trigger] failed[f]).0 == node && failed[f].1@ == family
}

/// Whether no source waits on an upstream family.
pub open spec fn no_deferred(sources: Seq<FamilySource>) -> bool {
    forall|k: int| 0 <= k < sources.len() ==> !(#[trigger] sources[k] is Deferred)
}

/// Whether some source waits on an upstream family not resolved.
pub open spec fn waits_unresolved(sources: Seq<FamilySource>, resolved: Seq<FamilyMember>) -> bool {
    exists|k: int| 0 <= k < sources.len() && (#[trigger] sources[k] matches FamilySource::Deferred(_, up, family)
        && !is_resolved(resolved, up, family@))
}

/// Whether some source waits on an upstream family that failed.
spec fn waits_failed(sources: Seq<FamilySource>, failed: Seq<(u128, String)>) -> bool {
    exists|k: int| 0 <= k < sources.len() && (#[trigger] sources[k] matches FamilySource::Deferred(_, up, family)
        && has_failed(failed, up, family@))
}

/// The job's sources are all known and still do not resolve it.
pub open spec fn fails_outright(registry: Registry, job: FamilyJob) -> bool {
    no_deferred(job.sources@) && !(family_resolution(registry, job.sources@, job.members@) is Resolved)
}

/// Each resolution recorded is the resolution of a job of that node and
/// family, over that job's sources.
pub open spec fn resolutions_sound(registry: Registry, jobs: Seq<FamilyJob>, resolved: Seq<FamilyMember>) -> bool {
    forall|r: int| 0 <= r < resolved.len() ==> exists|m: int| 0 <= m < jobs.len()
        && (#[trigger] jobs[m]).node == (#[trigger] resolved[r]).node && jobs[m].name@ == resolved[r].family@
        && family_resolution(registry, jobs[m].sources@, jobs[m].members@) == FamilyResolution::Resolved(resolved[r].member)
}

/// Each failure recorded is that of a job of that node and family whose
/// sources do not resolve it or wait on a failed family.
spec fn failures_sound(registry: Registry, jobs: Seq<FamilyJob>, failed: Seq<(u128, String)>) -> bool {
    forall|f: int| 0 <= f < failed.len() ==> exists|m: int| 0 <= m < jobs.len()
        && (#[trigger] jobs[m]).node == (#[trigger] failed[f]).0 && jobs[m].name@ == failed[f].1@
        && (fails_outright(registry, jobs[m]) || waits_failed(jobs[m].sources@, failed))
}

/// The node and family of each job.
spec fn job_pairs(jobs: Seq<FamilyJob>) -> Set<(u128, Seq<char>)> {
    jobs.map_values(|job: FamilyJob| (job.node, job.name@)).to_set()
}

/// The families settled: resolved or failed.
spec fn settled_pairs(resolved: Seq<FamilyMember>, failed: Seq<(u128, String)>) -> Set<(u128, Seq<char>)> {
    Set::new(|p: (u128, Seq<char>)| is_resolved(resolved, p.0, p.1) || has_failed(failed, p.0, p.1))
}

proof fn lemma_settled_within(registry: Registry, start: Seq<FamilyJob>, jobs: Seq<FamilyJob>, resolved: Seq<FamilyMember>, failed: Seq<(u128, String)>)
    requires
        jobs.len() == start.len(),
        forall|j: int| 0 <= j < jobs.len() ==> (#[trigger] jobs[j]).node == start[j].node && jobs[j].name@ == start[j].name@,
        resolutions_sound(registry, jobs, resolved),
        failures_sound(registry, jobs, failed),
    ensures
        settled_pairs(resolved, failed).subset_of(job_pairs(start)),
        settled_pairs(resolved, failed).finite(),
        settled_pairs(resolved, failed).len() <= job_pairs(start).len(),
        job_pairs(start).len() <= start.len(),
        job_pairs(start).finite(),
{
    let pairs = start.map_values(|job: FamilyJob| (job.node, job.name@));
    assert forall|p: (u128, Seq<char>)| #[trigger] settled_pairs(resolved, failed).contains(p) implies job_pairs(start).contains(p) by {
        let m = if is_resolved(resolved, p.0, p.1) {
            let r = choose|r: int| 0 <= r < resolved.len() && (#[trigger] resolved[r]).node == p.0 && resolved[r].family@ == p.1;
            choose|m: int| 0 <= m < jobs.len()
                && (#[trigger] jobs[m]).node == resolved[r].node && jobs[m].name@ == resolved[r].family@
                && family_resolution(registry, jobs[m].sources@, jobs[m].members@) == FamilyResolution::Resolved(resolved[r].member)
        } else {
            let f = choose|f: int| 0 <= f < failed.len() && (#[trigger] failed[f]).0 == p.0 && failed[f].1@ == p.1;
            choose|m: int| 0 <= m < jobs.len()
                && (#[trigger] jobs[m]).node == failed[f].0 && jobs[m].name@ == failed[f].1@
                && (fails_outright(registry, jobs[m]) || waits_failed(jobs[m].sources@, failed))
        };
        assert(pairs[m] == p);
        assert(pairs.contains(p));
    }
    pairs.lemma_cardinality_of_set();
    vstd::seq_lib::seq_to_set_is_finite(pairs);
    vstd::set_lib::lemma_len_subset(settled_pairs(resolved, failed), job_pairs(start));
}

proof fn lemma_failed_push(registry: Registry, jobs: Seq<FamilyJob>, resolved: Seq<FamilyMember>, before: Seq<(u128, String)>,
    after: Seq<(u128, String)>, j: int)
    requires
        0 <= j < jobs.len(),
        after.len() == before.len() + 1,
        forall|f: int| 0 <= f < before.len() ==> #[trigger] after[f] == before[f],
        after[before.len() as int].0 == jobs[j].node,
        after[before.len() as int].1@ == jobs[j].name@,
        !is_resolved(resolved, jobs[j].node, jobs[j].name@),
        failures_sound(registry, jobs, before),
        fails_outright(registry, jobs[j]) || waits_failed(jobs[j].sources@, before),
        forall|f: int| 0 <= f < before.len() ==> !is_resolved(resolved, (#[trigger] before[f]).0, before[f].1@),
    ensures
        failures_sound(registry, jobs, after),
        forall|f: int| 0 <= f < after.len() ==> !is_resolved(resolved, (#[trigger] after[f]).0, after[f].1@),
        has_failed(after, jobs[j].node, jobs[j].name@),
        forall|p: (u128, Seq<char>)| #[trigger] settled_pairs(resolved, before).contains(p) ==> settled_pairs(resolved, after).contains(p),
        settled_pairs(resolved, after).contains((jobs[j].node, jobs[j].name@)),
        after.subrange(0, before.len() as int) == before,
        forall|node: u128, family: Seq<char>| #[trigger] has_failed(before, node, family) ==> has_failed(after, node, family),
{
    assert(after.subrange(0, before.len() as int) =~= before);
    assert(has_failed(after, jobs[j].node, jobs[j].name@)) by {
        assert(after[before.len() as int].0 == jobs[j].node);
    }
    assert forall|node: u128, family: Seq<char>| #[trigger] has_failed(before, node, family) implies has_failed(after, node, family) by {
        let g = choose|g: int| 0 <= g < before.len() && (#[trigger] before[g]).0 == node && before[g].1@ == family;
        assert(after[g] == before[g]);
    }
    assert forall|m: int| 0 <= m < jobs.len() && #[trigger] waits_failed(jobs[m].sources@, before) implies waits_failed(jobs[m].sources@, after) by {
        let k = choose|k: int| 0 <= k < jobs[m].sources@.len() && (#[trigger] jobs[m].sources@[k] matches FamilySource::Deferred(_, up, family)
            && has_failed(before, up, family@));
        match jobs[m].sources@[k] {
            FamilySource::Deferred(_, up, family) => {
                assert(has_failed(after, up, family@));
            },
            _ => {},
        }
    }
    assert forall|f: int| 0 <= f < after.len() implies exists|m: int| 0 <= m < jobs.len()
        && (#[trigger] jobs[m]).node == (#[trigger] after[f]).0 && jobs[m].name@ == after[f].1@
        && (fails_outright(registry, jobs[m]) || waits_failed(jobs[m].sources@, after)) by {
        if f < before.len() {
            assert(after[f] == before[f]);
            let m = choose|m: int| 0 <= m < jobs.len()
                && (#[trigger] jobs[m]).node == before[f].0 && jobs[m].name@ == before[f].1@
                && (fails_outright(registry, jobs[m]) || waits_failed(jobs[m].sources@, before));
            assert(jobs[m].node == after[f].0);
        } else {
            assert(jobs[j].node == after[f].0);
        }
    }
    assert forall|f: int| 0 <= f < after.len() implies !is_resolved(resolved, (#[trigger] after[f]).0, after[f].1@) by {
        if f < before.len() {
            assert(after[f] == before[f]);
        }
    }
    assert forall|p: (u128, Seq<char>)| #[trigger] settled_pairs(resolved, before).contains(p) implies settled_pairs(resolved, after).contains(p) by {
        if has_failed(before, p.0, p.1) {
            assert(has_failed(after, p.0, p.1));
        }
    }
}

proof fn lemma_resolved_push(registry: Registry, jobs: Seq<FamilyJob>, before: Seq<FamilyMember>, after: Seq<FamilyMember>,
    failed: Seq<(u128, String)>, j: int)
    requires
        0 <= j < jobs.len(),
        after.len() == before.len() + 1,
        forall|r: int| 0 <= r < before.len() ==> #[trigger] after[r] == before[r],
        after[before.len() as int].node == jobs[j].node,
        after[before.len() as int].family@ == jobs[j].name@,
        family_resolution(registry, jobs[j].sources@, jobs[j].members@) == FamilyResolution::Resolved(after[before.len() as int].member),
        !has_failed(failed, jobs[j].node, jobs[j].name@),
        resolutions_sound(registry, jobs, before),
        forall|f: int| 0 <= f < failed.len() ==> !is_resolved(before, (#[trigger] failed[f]).0, failed[f].1@),
    ensures
        resolutions_sound(registry, jobs, after),
        forall|f: int| 0 <= f < failed.len() ==> !is_resolved(after, (#[trigger] failed[f]).0, failed[f].1@),
        settled_pairs(after, failed).contains((jobs[j].node, jobs[j].name@)),
        forall|p: (u128, Seq<char>)| #[trigger] settled_pairs(before, failed).contains(p) ==> settled_pairs(after, failed).contains(p),
        forall|node: u128, family: Seq<char>| #[trigger] is_resolved(before, node, family) ==> is_resolved(after, node, family),
{
    assert(is_resolved(after, jobs[j].node, jobs[j].name@)) by {
        assert(after[before.len() as int].node == jobs[j].node);
    }
    assert forall|node: u128, family: Seq<char>| #[trigger] is_resolved(before, node, family) implies is_resolved(after, node, family) by {
        let r = choose|r: int| 0 <= r < before.len() && (#[trigger] before[r]).node == node && before[r].family@ == family;
        assert(after[r] == before[r]);
    }
    assert forall|r: int| 0 <= r < after.len() implies exists|m: int| 0 <= m < jobs.len()
        && (#[trigger] jobs[m]).node == (#[trigger] after[r]).node && jobs[m].name@ == after[r].family@
        && family_resolution(registry, jobs[m].sources@, jobs[m].members@) == FamilyResolution::Resolved(after[r].member) by {
        if r < before.len() {
            assert(after[r] == before[r]);
            let m = choose|m: int| 0 <= m < jobs.len()
                && (#[trigger] jobs[m]).node == before[r].node && jobs[m].name@ == before[r].family@
                && family_resolution(registry, jobs[m].sources@, jobs[m].members@) == FamilyResolution::Resolved(before[r].member);
            assert(jobs[m].node == after[r].node);
        } else {
            assert(jobs[j].node == after[r].node);
        }
    }
    assert forall|f: int| 0 <= f < failed.len() implies !is_resolved(after, (#[trigger] failed[f]).0, failed[f].1@) by {
        if is_resolved(after, failed[f].0, failed[f].1@) {
            let r = choose|r: int| 0 <= r < after.len() && (#[trigger] after[r]).node == failed[f].0 && after[r].family@ == failed[f].1@;
            if r < before.len() {
                assert(after[r] == before[r]);
                assert(is_resolved(before, failed[f].0, failed[f].1@));
            } else {
                assert(has_failed(failed, jobs[j].node, jobs[j].name@));
            }
        }
    }
    assert forall|p: (u128, Seq<char>)| #[trigger] settled_pairs(before, failed).contains(p) implies settled_pairs(after, failed).contains(p) by {
        if is_resolved(before, p.0, p.1) {
            assert(is_resolved(after, p.0, p.1));
        }
    }
}

/// The literal sources of a family's ports, in order: for each input
/// port, the literal the instance holds there, if it holds one.
pub open spec fn literal_sources(compiled: Seq<InstanceParameters>, uuid: u128, ports: Seq<Port>, inputs: Seq<Port>) -> Seq<FamilySource>
    decreases ports.len(),
{
    if ports.len() == 0 {
        Seq::empty()
    } else {
        let rest = literal_sources(compiled, uuid, ports.drop_last(), inputs);
        let p = ports.last();
        if port_named(inputs, p.name@) is Some {
            match instance_literal(compiled, uuid, p.name@) {
                Some(l) => rest.push(FamilySource::Literal(l.input, l.literal)),
                None => rest,
            }
        } else {
            rest
        }
    }
}

/// A job of a node nothing feeds draws its sources from the literals the
/// node holds on its family's input ports.
pub open spec fn literal_job(registry: Registry, nodes: Seq<NodeInstance>, fed: Seq<Feed>, compiled: Seq<InstanceParameters>, job: FamilyJob) -> bool {
    (forall|p: Seq<char>| !fed_has(fed, job.node, p)) ==> {
        let t = typed(registry, nodes, job.node).unwrap();
        job.sources@ == literal_sources(compiled, job.node, family_ports(all_ports(t), job.name@), t.inputs@)
    }
}

/// Every job of a node nothing feeds draws its sources from the node's
/// literals.
#[verifier::opaque]
pub open spec fn jobs_literal(registry: Registry, nodes: Seq<NodeInstance>, fed: Seq<Feed>, compiled: Seq<InstanceParameters>,
    jobs: Seq<FamilyJob>) -> bool {
    forall|j: int| 0 <= j < jobs.len() ==> literal_job(registry, nodes, fed, compiled, #[trigger] jobs[j])
}

proof fn lemma_outcome_nodes(t: NodeType, uuid: u128, shown: Seq<char>, families: Seq<Seq<char>>)
    ensures
        forall|s: int| 0 <= s < families_outcome(t, uuid, shown, families).0.len()
            ==> (#[trigger] families_outcome(t, uuid, shown, families).0[s]).0 == uuid,
    decreases families.len(),
{
    if families.len() > 0 {
        lemma_outcome_nodes(t, uuid, shown, families.drop_last());
        let rest = families_outcome(t, uuid, shown, families.drop_last()).0;
        let last = family_outcome(t, uuid, shown, families.last()).0;
        assert forall|s: int| 0 <= s < (rest + last).len() implies (#[trigger] (rest + last)[s]).0 == uuid by {
            if s < rest.len() {
                assert((rest + last)[s] == rest[s]);
            } else {
                assert((rest + last)[s] == last[s - rest.len()]);
            }
        }
    }
}

/// Every family gathered belongs to an instance of the table.
pub proof fn lemma_gathered_nodes(registry: Registry, nodes: Seq<NodeInstance>, table: Seq<u128>)
    ensures
        forall|s: int| 0 <= s < gathered(registry, nodes, table).0.len() ==> table.contains((#[trigger] gathered(registry, nodes, table).0[s]).0),
    decreases table.len(),
{
    if table.len() > 0 {
        lemma_gathered_nodes(registry, nodes, table.drop_last());
        let rest = gathered(registry, nodes, table.drop_last()).0;
        let all = gathered(registry, nodes, table).0;
        let uuid = table.last();
        assert(table[table.len() - 1] == uuid);
        assert forall|s: int| 0 <= s < all.len() implies table.contains((#[trigger] all[s]).0) by {
            if s < rest.len() {
                assert(all[s] == rest[s]);
                let w = choose|w: int| 0 <= w < table.drop_last().len() && table.drop_last()[w] == rest[s].0;
                assert(table[w] == rest[s].0);
            } else {
                let instance = crate::instances::instance_with(nodes, uuid);
                let t = crate::instances::type_of(registry, instance).unwrap();
                let found = families_outcome(t, uuid, crate::instances::name_in(registry, instance), family_names(all_ports(t)));
                lemma_outcome_nodes(t, uuid, crate::instances::name_in(registry, instance), family_names(all_ports(t)));
                assert(all[s] == found.0[s - rest.len()]);
            }
        }
    }
}

/// Every job's sources are known and resolve its family.
pub open spec fn all_resolving(registry: Registry, jobs: Seq<FamilyJob>) -> bool {
    forall|j: int| 0 <= j < jobs.len() ==> no_deferred((#[trigger] jobs[j]).sources@)
        && family_resolution(registry, jobs[j].sources@, jobs[j].members@) is Resolved
}

/// Resolve every family. A family fed by an upstream family waits for that
/// resolution; a family whose upstream failed fails with it, its failure
/// reported there. Rounds run until one makes no progress: then each
/// family is resolved, or some job of it fails outright or waits on a
/// family left unresolved.
#[verifier::spinoff_prover]
pub fn resolve_families(
    jobs: &mut Vec<FamilyJob>,
    nodes: &Vec<NodeInstance>,
    registry: &Registry,
    errors: &mut Vec<Problem>,
) -> (resolved: Vec<FamilyMember>)
    requires
        registry.wf(),
    ensures
        final(errors)@.len() >= old(errors)@.len(),
        final(errors)@.subrange(0, old(errors)@.len() as int) == old(errors)@,
        final(jobs)@.len() == old(jobs)@.len(),
        forall|j: int| 0 <= j < final(jobs)@.len() ==> (#[trigger] final(jobs)@[j]).node == old(jobs)@[j].node
            && final(jobs)@[j].name@ == old(jobs)@[j].name@ && final(jobs)@[j].members@ == old(jobs)@[j].members@,
        members_declared(final(jobs)@, resolved@),
        resolutions_sound(*registry, final(jobs)@, resolved@),
        forall|m: int| 0 <= m < final(jobs)@.len() ==> is_resolved(resolved@, (#[trigger] final(jobs)@[m]).node, final(jobs)@[m].name@)
            || exists|n: int| 0 <= n < final(jobs)@.len() && (#[trigger] final(jobs)@[n]).node == final(jobs)@[m].node
                && final(jobs)@[n].name@ == final(jobs)@[m].name@
                && (fails_outright(*registry, final(jobs)@[n]) || waits_unresolved(final(jobs)@[n].sources@, resolved@)),
        old(jobs)@.len() == 0 ==> final(errors)@ == old(errors)@,
        forall|j: int| 0 <= j < old(jobs)@.len() && no_deferred((#[trigger] old(jobs)@[j]).sources@)
            ==> final(jobs)@[j].sources@ == old(jobs)@[j].sources@,
        all_resolving(*registry, old(jobs)@) ==> final(errors)@ == old(errors)@
            && forall|j: int| 0 <= j < final(jobs)@.len() ==> is_resolved(resolved@, (#[trigger] final(jobs)@[j]).node, final(jobs)@[j].name@),
{
    let ghost original = errors@;
    let ghost start = jobs@;
    let ghost plain = all_resolving(*registry, jobs@);
    let mut resolved: Vec<FamilyMember> = Vec::new();
    let mut failed: Vec<(u128, String)> = Vec::new();
    let mut left: usize = jobs.len();
    proof {
        assert(settled_pairs(resolved@, failed@) =~= Set::<(u128, Seq<char>)>::empty());
    }
    loop
        invariant_except_break
            settled_pairs(resolved@, failed@).len() + left >= jobs@.len(),
        invariant
            registry.wf(),
            start == old(jobs)@,
            errors@.len() >= original.len(),
            errors@.subrange(0, original.len() as int) == original,
            jobs@.len() == start.len(),
            forall|j: int| 0 <= j < jobs@.len() ==> (#[trigger] jobs@[j]).node == start[j].node
                && jobs@[j].name@ == start[j].name@ && jobs@[j].members@ == start[j].members@,
            members_declared(jobs@, resolved@),
            resolutions_sound(*registry, jobs@, resolved@),
            failures_sound(*registry, jobs@, failed@),
            forall|f: int| 0 <= f < failed@.len() ==> !is_resolved(resolved@, (#[trigger] failed@[f]).0, failed@[f].1@),
            original == old(errors)@,
            start.len() == 0 ==> errors@ == original,
            plain == all_resolving(*registry, start),
            forall|j: int| 0 <= j < start.len() && no_deferred((#[trigger] start[j]).sources@) ==> jobs@[j].sources@ == start[j].sources@,
            plain ==> errors@ == original && failed@.len() == 0,
        ensures
            original == old(errors)@,
            start.len() == 0 ==> errors@ == original,
            plain == all_resolving(*registry, start),
            forall|j: int| 0 <= j < start.len() && no_deferred((#[trigger] start[j]).sources@) ==> jobs@[j].sources@ == start[j].sources@,
            plain ==> errors@ == original && failed@.len() == 0,
            jobs@.len() == start.len(),
            forall|j: int| 0 <= j < jobs@.len() ==> (#[trigger] jobs@[j]).node == start[j].node
                && jobs@[j].name@ == start[j].name@ && jobs@[j].members@ == start[j].members@,
            errors@.len() >= original.len(),
            errors@.subrange(0, original.len() as int) == original,
            members_declared(jobs@, resolved@),
            resolutions_sound(*registry, jobs@, resolved@),
            failures_sound(*registry, jobs@, failed@),
            forall|f: int| 0 <= f < failed@.len() ==> !is_resolved(resolved@, (#[trigger] failed@[f]).0, failed@[f].1@),
            forall|m: int| 0 <= m < jobs@.len() ==> is_resolved(resolved@, (#[trigger] jobs@[m]).node, jobs@[m].name@)
                || has_failed(failed@, jobs@[m].node, jobs@[m].name@) || waits_unresolved(jobs@[m].sources@, resolved@),
        decreases left,
    {
        let mut progress = false;
        let ghost resolved_start = resolved@;
        let ghost failed_start = failed@;
        let ghost settled_start = settled_pairs(resolved@, failed@);
        proof {
            assert(resolved@.subrange(0, resolved_start.len() as int) =~= resolved_start);
            assert(failed@.subrange(0, failed_start.len() as int) =~= failed_start);
        }
        let mut j: usize = 0;
        while j < jobs.len()
            invariant
                registry.wf(),
                j <= jobs.len(),
                errors@.len() >= original.len(),
                errors@.subrange(0, original.len() as int) == original,
                jobs@.len() == start.len(),
                forall|m: int| 0 <= m < jobs@.len() ==> (#[trigger] jobs@[m]).node == start[m].node
                    && jobs@[m].name@ == start[m].name@ && jobs@[m].members@ == start[m].members@,
                members_declared(jobs@, resolved@),
                resolutions_sound(*registry, jobs@, resolved@),
                failures_sound(*registry, jobs@, failed@),
                forall|f: int| 0 <= f < failed@.len() ==> !is_resolved(resolved@, (#[trigger] failed@[f]).0, failed@[f].1@),
                settled_start == settled_pairs(resolved_start, failed_start),
                start.len() == 0 ==> errors@ == original,
                plain == all_resolving(*registry, start),
                forall|m: int| 0 <= m < start.len() && no_deferred((#[trigger] start[m]).sources@) ==> jobs@[m].sources@ == start[m].sources@,
                plain ==> errors@ == original && failed@.len() == 0,
                forall|p: (u128, Seq<char>)| #[trigger] settled_start.contains(p) ==> settled_pairs(resolved@, failed@).contains(p),
                !progress ==> resolved@ == resolved_start,
                progress ==> exists|p: (u128, Seq<char>)| #[trigger] settled_pairs(resolved@, failed@).contains(p) && !settled_start.contains(p),
                forall|m: int| 0 <= m < j ==> is_resolved(resolved@, (#[trigger] jobs@[m]).node, jobs@[m].name@)
                    || has_failed(failed@, jobs@[m].node, jobs@[m].name@) || progress
                    || waits_unresolved(jobs@[m].sources@, resolved@),
            decreases jobs.len() - j,
        {
            let node = jobs[j].node;
            if member_of(&resolved, node, jobs[j].name.as_str()).is_some()
                || settled_in(&failed, node, jobs[j].name.as_str()) {
                j = j + 1;
                continue;
            }
            assert(!is_resolved(resolved@, node, jobs@[j as int].name@));
            assert(!has_failed(failed@, node, jobs@[j as int].name@));
            // Replace each deferred source whose upstream resolved.
            let mut ready = true;
            let mut upstream_failed = false;
            let mut sources: Vec<FamilySource> = Vec::new();
            let mut s: usize = 0;
            while s < jobs[j].sources.len()
                invariant
                    j < jobs.len(),
                    s <= jobs@[j as int].sources@.len(),
                    ready ==> no_deferred(sources@),
                    !ready ==> waits_unresolved(sources@, resolved@),
                    upstream_failed ==> waits_failed(sources@, failed@),
                    no_deferred(jobs@[j as int].sources@) ==> ready && !upstream_failed
                        && sources@ == jobs@[j as int].sources@.subrange(0, s as int),
                decreases jobs@[j as int].sources@.len() - s,
            {
                let ghost before_sources = sources@;
                let source = &jobs[j].sources[s];
                match source {
                    FamilySource::Deferred(port_name, upstream, family) => {
                        if ready {
                            match member_of(&resolved, *upstream, family.as_str()) {
                                Some(member) => {
                                    sources.push(FamilySource::Type(port_name.clone(), member.copy()));
                                },
                                None => {
                                    if settled_in(&failed, *upstream, family.as_str()) {
                                        upstream_failed = true;
                                    }
                                    ready = false;
                                    sources.push(FamilySource::Deferred(port_name.clone(), *upstream, family.clone()));
                                    proof {
                                        assert(sources@[before_sources.len() as int] == FamilySource::Deferred(*port_name, *upstream, *family));
                                    }
                                },
                            }
                        } else {
                            sources.push(FamilySource::Deferred(port_name.clone(), *upstream, family.clone()));
                        }
                    },
                    FamilySource::Type(port_name, r) => sources.push(FamilySource::Type(port_name.clone(), r.copy())),
                    FamilySource::Literal(port_name, literal) => sources.push(FamilySource::Literal(port_name.clone(), literal.copy())),
                }
                proof {
                    assert forall|k: int| 0 <= k < before_sources.len() implies #[trigger] sources@[k] == before_sources[k] by {}
                    if ready {
                        assert forall|k: int| 0 <= k < sources@.len() implies !(#[trigger] sources@[k] is Deferred) by {
                            if k < before_sources.len() {
                                assert(sources@[k] == before_sources[k]);
                            }
                        }
                    }
                    if !ready && waits_unresolved(before_sources, resolved@) {
                        let k = choose|k: int| 0 <= k < before_sources.len() && (#[trigger] before_sources[k] matches FamilySource::Deferred(_, up, family)
                            && !is_resolved(resolved@, up, family@));
                        assert(sources@[k] == before_sources[k]);
                    }
                    if upstream_failed && waits_failed(before_sources, failed@) {
                        let k = choose|k: int| 0 <= k < before_sources.len() && (#[trigger] before_sources[k] matches FamilySource::Deferred(_, up, family)
                            && has_failed(failed@, up, family@));
                        assert(sources@[k] == before_sources[k]);
                    }
                }
                s = s + 1;
            }
            let ghost sources_view = sources@;
            let job = FamilyJob {
                node: jobs[j].node,
                name: jobs[j].name.clone(),
                members: crate::text::copy_names(&jobs[j].members),
                ports: crate::text::copy_names(&jobs[j].ports),
                sources,
            };
            let ghost before_jobs = jobs@;
            jobs.set(j, job);
            proof {
                assert forall|r: int| 0 <= r < resolved@.len() implies exists|m: int| 0 <= m < jobs@.len()
                    && (#[trigger] jobs@[m]).node == (#[trigger] resolved@[r]).node && jobs@[m].name@ == resolved@[r].family@
                    && has_name(jobs@[m].members@, resolved@[r].member.name@) by {
                    let m = choose|m: int| 0 <= m < before_jobs.len()
                        && (#[trigger] before_jobs[m]).node == resolved@[r].node && before_jobs[m].name@ == resolved@[r].family@
                        && has_name(before_jobs[m].members@, resolved@[r].member.name@);
                    assert(jobs@[m].node == resolved@[r].node);
                }
                assert forall|r: int| 0 <= r < resolved@.len() implies exists|m: int| 0 <= m < jobs@.len()
                    && (#[trigger] jobs@[m]).node == (#[trigger] resolved@[r]).node && jobs@[m].name@ == resolved@[r].family@
                    && family_resolution(*registry, jobs@[m].sources@, jobs@[m].members@) == FamilyResolution::Resolved(resolved@[r].member) by {
                    let m = choose|m: int| 0 <= m < before_jobs.len()
                        && (#[trigger] before_jobs[m]).node == resolved@[r].node && before_jobs[m].name@ == resolved@[r].family@
                        && family_resolution(*registry, before_jobs[m].sources@, before_jobs[m].members@) == FamilyResolution::Resolved(resolved@[r].member);
                    if m == j {
                        assert(is_resolved(resolved@, node, before_jobs[j as int].name@));
                    }
                    assert(jobs@[m] == before_jobs[m]);
                }
                assert forall|f: int| 0 <= f < failed@.len() implies exists|m: int| 0 <= m < jobs@.len()
                    && (#[trigger] jobs@[m]).node == (#[trigger] failed@[f]).0 && jobs@[m].name@ == failed@[f].1@
                    && (fails_outright(*registry, jobs@[m]) || waits_failed(jobs@[m].sources@, failed@)) by {
                    let m = choose|m: int| 0 <= m < before_jobs.len()
                        && (#[trigger] before_jobs[m]).node == failed@[f].0 && before_jobs[m].name@ == failed@[f].1@
                        && (fails_outright(*registry, before_jobs[m]) || waits_failed(before_jobs[m].sources@, failed@));
                    if m == j {
                        assert(has_failed(failed@, node, before_jobs[j as int].name@));
                    }
                    assert(jobs@[m] == before_jobs[m]);
                }
                assert forall|m: int| 0 <= m < j implies is_resolved(resolved@, (#[trigger] jobs@[m]).node, jobs@[m].name@)
                    || has_failed(failed@, jobs@[m].node, jobs@[m].name@) || progress
                    || waits_unresolved(jobs@[m].sources@, resolved@) by {
                    assert(jobs@[m] == before_jobs[m]);
                }
                assert(jobs@[j as int].sources@ == sources_view);
                assert(jobs@[j as int].node == node);
            }
            proof {
                if plain {
                    assert(no_deferred(start[j as int].sources@) && family_resolution(*registry, start[j as int].sources@, start[j as int].members@) is Resolved);
                    assert(before_jobs[j as int].sources@ == start[j as int].sources@);
                    assert(sources_view == before_jobs[j as int].sources@.subrange(0, before_jobs[j as int].sources@.len() as int));
                    assert(sources_view =~= start[j as int].sources@);
                    assert(!upstream_failed && ready);
                    assert(family_resolution(*registry, jobs@[j as int].sources@, jobs@[j as int].members@) is Resolved);
                }
            }
            if upstream_failed {
                let ghost before_failed = failed@;
                failed.push((node, jobs[j].name.clone()));
                proof {
                    lemma_failed_push(*registry, jobs@, resolved@, before_failed, failed@, j as int);
                }
                j = j + 1;
                continue;
            }
            if !ready {
                j = j + 1;
                continue;
            }
            progress = true;
            match resolve_family(&jobs[j].sources, &jobs[j].members, registry) {
                FamilyResolution::Resolved(member) => {
                    proof {
                        let sources = jobs@[j as int].sources@;
                        let members = jobs@[j as int].members@;
                        if exact_agreement(sources, members) is None {
                            lemma_unified_member(*registry, sources, members, 0);
                        }
                    }
                    let ghost before = resolved@;
                    resolved.push(FamilyMember { node, family: jobs[j].name.clone(), member });
                    proof {
                        lemma_resolved_push(*registry, jobs@, before, resolved@, failed@, j as int);
                        assert forall|r: int| 0 <= r < resolved@.len() implies exists|m: int| 0 <= m < jobs@.len()
                            && (#[trigger] jobs@[m]).node == (#[trigger] resolved@[r]).node && jobs@[m].name@ == resolved@[r].family@
                            && has_name(jobs@[m].members@, resolved@[r].member.name@) by {
                            if r < before.len() {
                                assert(resolved@[r] == before[r]);
                            } else {
                                assert(jobs@[j as int].node == resolved@[r].node);
                            }
                        }
                        assert forall|m: int| 0 <= m < j + 1 implies is_resolved(resolved@, (#[trigger] jobs@[m]).node, jobs@[m].name@)
                            || has_failed(failed@, jobs@[m].node, jobs@[m].name@) || progress
                            || waits_unresolved(jobs@[m].sources@, resolved@) by {}
                    }
                },
                FamilyResolution::NoSource => {
                    let ghost before_failed = failed@;
                    failed.push((node, jobs[j].name.clone()));
                    proof {
                        lemma_failed_push(*registry, jobs@, resolved@, before_failed, failed@, j as int);
                    }
                    let name = match instance_of(nodes, node) {
                        Some(instance) => name_of(registry, instance),
                        None => crate::ids::uuid_text(node),
                    };
                    let message = no_source(&name, &jobs[j]);
                    let ghost before = errors@;
                    errors.push(problem(message, node));
                    assert(errors@.subrange(0, original.len() as int) =~= before.subrange(0, original.len() as int));
                },
                FamilyResolution::Conflict => {
                    let ghost before_failed = failed@;
                    failed.push((node, jobs[j].name.clone()));
                    proof {
                        lemma_failed_push(*registry, jobs@, resolved@, before_failed, failed@, j as int);
                    }
                    let name = match instance_of(nodes, node) {
                        Some(instance) => name_of(registry, instance),
                        None => crate::ids::uuid_text(node),
                    };
                    let message = conflict(registry, nodes, &name, &jobs[j]);
                    let ghost before = errors@;
                    errors.push(problem(message, node));
                    assert(errors@.subrange(0, original.len() as int) =~= before.subrange(0, original.len() as int));
                },
            }
            j = j + 1;
        }
        proof {
            lemma_settled_within(*registry, start, jobs@, resolved@, failed@);
            if progress {
                let p = choose|p: (u128, Seq<char>)| #[trigger] settled_pairs(resolved@, failed@).contains(p) && !settled_start.contains(p);
                assert(settled_start.subset_of(settled_pairs(resolved@, failed@).remove(p)));
                vstd::set_lib::lemma_len_subset(settled_start, settled_pairs(resolved@, failed@).remove(p));
                vstd::set_lib::lemma_len_subset(settled_pairs(resolved@, failed@), job_pairs(start));
            }
        }
        if !progress || left == 0 {
            break;
        }
        left = left - 1;
    }
    proof {
        assert forall|m: int| 0 <= m < jobs@.len() implies is_resolved(resolved@, (#[trigger] jobs@[m]).node, jobs@[m].name@)
            || exists|n: int| 0 <= n < jobs@.len() && (#[trigger] jobs@[n]).node == jobs@[m].node
                && jobs@[n].name@ == jobs@[m].name@
                && (fails_outright(*registry, jobs@[n]) || waits_unresolved(jobs@[n].sources@, resolved@)) by {
            if !is_resolved(resolved@, jobs@[m].node, jobs@[m].name@) {
                if has_failed(failed@, jobs@[m].node, jobs@[m].name@) {
                    let f = choose|f: int| 0 <= f < failed@.len() && (#[trigger] failed@[f]).0 == jobs@[m].node && failed@[f].1@ == jobs@[m].name@;
                    let n = choose|n: int| 0 <= n < jobs@.len()
                        && (#[trigger] jobs@[n]).node == failed@[f].0 && jobs@[n].name@ == failed@[f].1@
                        && (fails_outright(*registry, jobs@[n]) || waits_failed(jobs@[n].sources@, failed@));
                    if !fails_outright(*registry, jobs@[n]) {
                        let k = choose|k: int| 0 <= k < jobs@[n].sources@.len() && (#[trigger] jobs@[n].sources@[k] matches FamilySource::Deferred(_, up, family)
                            && has_failed(failed@, up, family@));
                        match jobs@[n].sources@[k] {
                            FamilySource::Deferred(_, up, family) => {
                                let g = choose|g: int| 0 <= g < failed@.len() && (#[trigger] failed@[g]).0 == up && failed@[g].1@ == family@;
                                assert(!is_resolved(resolved@, failed@[g].0, failed@[g].1@));
                            },
                            _ => {},
                        }
                        assert(waits_unresolved(jobs@[n].sources@, resolved@));
                    }
                } else {
                    assert(waits_unresolved(jobs@[m].sources@, resolved@));
                }
            }
        }
    }
    resolved
}

/// A member every source reaches is one the family declares.
proof fn lemma_unified_member(registry: Registry, sources: Seq<FamilySource>, members: Seq<String>, i: int)
    requires
        registry.wf(),
    ensures
        first_unified(registry, sources, members, i) matches Some(target)
            ==> has_name(members, Resolved::of(target).name@),
    decreases members.len() - i,
{
    if 0 <= i < members.len() {
        lemma_unified_member(registry, sources, members, i + 1);
        match registry.data_type_of(members[i]@) {
            Some(target) => {
                assert(target.name@ == members[i]@);
            },
            None => {},
        }
    }
}

} // verus!
