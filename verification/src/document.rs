//! Writing a graph definition back out as the YAML tree a graph file
//! carries — the same format the loader reads, so what one tool writes
//! another reads back unchanged. Optional fields are left out when they
//! hold nothing: a node's label, parameters and metadata, the document's
//! name and its groups.

use vstd::prelude::*;
use crate::graph::{
    copy_metadata, same_entries, same_yaml, Edge, GraphDefinition, GroupDefinition, GroupPort, NodeInstance, ParameterValue,
    Yaml, YamlEntry, YamlNumber,
};
use crate::ids::{hyphenated, uuid_text};

verus! {

/// The value is the text `t`.
pub open spec fn is_text(y: Yaml, t: Seq<char>) -> bool {
    y matches Yaml::Text(s) && s@ == t
}

/// The entry's key is the text `name`.
pub open spec fn key_is(e: YamlEntry, name: Seq<char>) -> bool {
    e.key matches Yaml::Text(t) && t@ == name
}

/// The value the first entry keyed `name` holds, if any.
pub open spec fn lookup(entries: Seq<YamlEntry>, name: Seq<char>) -> Option<Yaml>
    decreases entries.len(),
{
    if entries.len() == 0 {
        None
    } else if key_is(entries[0], name) {
        Some(entries[0].value)
    } else {
        lookup(entries.drop_first(), name)
    }
}

/// Every key of the mapping is a text among `names`.
pub open spec fn keys_among(entries: Seq<YamlEntry>, names: Seq<Seq<char>>) -> bool {
    forall|i: int| 0 <= i < entries.len() ==> ((#[trigger] entries[i]).key matches Yaml::Text(t) && names.contains(t@))
}

/// The field `name` holds a value satisfying `holds`, or, when `present`
/// is false, is absent.
pub open spec fn field(entries: Seq<YamlEntry>, name: Seq<char>, present: bool, holds: spec_fn(Yaml) -> bool) -> bool {
    if present {
        lookup(entries, name) matches Some(v) && holds(v)
    } else {
        lookup(entries, name) is None
    }
}

/// The fields of a node mapping.
pub open spec fn node_field_names() -> Seq<Seq<char>> {
    seq!["uuid"@, "type_ref"@, "label"@, "parameters"@, "metadata"@]
}

/// The fields of an edge mapping.
pub open spec fn edge_field_names() -> Seq<Seq<char>> {
    seq!["from"@, "from_port"@, "to"@, "to_port"@]
}

/// The fields of a group port mapping.
pub open spec fn group_port_field_names() -> Seq<Seq<char>> {
    seq!["name"@, "type_refs"@, "node"@, "port"@]
}

/// The fields of a group mapping.
pub open spec fn group_field_names() -> Seq<Seq<char>> {
    seq!["name"@, "inputs"@, "outputs"@, "nodes"@, "edges"@]
}

/// The fields of the document mapping.
pub open spec fn document_field_names() -> Seq<Seq<char>> {
    seq!["schema_version"@, "name"@, "nodes"@, "edges"@, "groups"@]
}

/// How a parameter value is written: a boolean, an integer, the float
/// literal itself, or a string.
pub open spec fn dumps_parameter(v: Yaml, p: ParameterValue) -> bool {
    match p {
        ParameterValue::Bool(b) => v == Yaml::Bool(b),
        ParameterValue::Int(i) => if i >= 0 {
            v == Yaml::Number(YamlNumber::PosInt(i as u64))
        } else {
            v == Yaml::Number(YamlNumber::NegInt(i))
        },
        ParameterValue::Float(f) => v matches Yaml::Number(YamlNumber::Float(g)) && g.bits == f.bits
            && g.narrowed == f.narrowed && g.text@ == f.text@ && g.number_text@ == f.number_text@,
        ParameterValue::Str(s) => is_text(v, s@),
    }
}

/// A node's parameters, written as a mapping from name to value in order.
pub open spec fn dumps_parameters(v: Yaml, parameters: Seq<(String, ParameterValue)>) -> bool {
    v matches Yaml::Mapping(es) && es@.len() == parameters.len() && forall|i: int| 0 <= i < parameters.len() ==> {
        &&& key_is(#[trigger] es@[i], parameters[i].0@)
        &&& dumps_parameter(es@[i].value, parameters[i].1)
    }
}

/// How a node instance is written.
pub open spec fn dumps_node(v: Yaml, n: NodeInstance) -> bool {
    v matches Yaml::Mapping(es) && {
        &&& keys_among(es@, node_field_names())
        &&& field(es@, "uuid"@, true, |y: Yaml| is_text(y, hyphenated(n.uuid)))
        &&& field(es@, "type_ref"@, true, |y: Yaml| is_text(y, n.type_ref@))
        &&& field(es@, "label"@, n.label is Some, |y: Yaml| is_text(y, n.label->0@))
        &&& field(es@, "parameters"@, n.parameters@.len() > 0, |y: Yaml| dumps_parameters(y, n.parameters@))
        &&& field(es@, "metadata"@, n.metadata@.len() > 0, |y: Yaml| y matches Yaml::Mapping(m) && same_entries(n.metadata@, m@))
    }
}

/// How an edge is written.
pub open spec fn dumps_edge(v: Yaml, e: Edge) -> bool {
    v matches Yaml::Mapping(es) && {
        &&& keys_among(es@, edge_field_names())
        &&& field(es@, "from"@, true, |y: Yaml| is_text(y, hyphenated(e.from)))
        &&& field(es@, "from_port"@, true, |y: Yaml| is_text(y, e.from_port@))
        &&& field(es@, "to"@, true, |y: Yaml| is_text(y, hyphenated(e.to)))
        &&& field(es@, "to_port"@, true, |y: Yaml| is_text(y, e.to_port@))
    }
}

/// A list of texts, written as a sequence.
pub open spec fn dumps_texts(v: Yaml, texts: Seq<String>) -> bool {
    v matches Yaml::Sequence(items) && items@.len() == texts.len()
        && forall|i: int| 0 <= i < texts.len() ==> is_text(#[trigger] items@[i], texts[i]@)
}

/// How an exposed group port is written.
pub open spec fn dumps_group_port(v: Yaml, p: GroupPort) -> bool {
    v matches Yaml::Mapping(es) && {
        &&& keys_among(es@, group_port_field_names())
        &&& field(es@, "name"@, true, |y: Yaml| is_text(y, p.name@))
        &&& field(es@, "type_refs"@, true, |y: Yaml| dumps_texts(y, p.type_refs@))
        &&& field(es@, "node"@, true, |y: Yaml| is_text(y, hyphenated(p.node)))
        &&& field(es@, "port"@, true, |y: Yaml| is_text(y, p.port@))
    }
}

/// A list of nodes, written as a sequence.
pub open spec fn dumps_nodes(v: Yaml, nodes: Seq<NodeInstance>) -> bool {
    v matches Yaml::Sequence(items) && items@.len() == nodes.len()
        && forall|i: int| 0 <= i < nodes.len() ==> dumps_node(#[trigger] items@[i], nodes[i])
}

/// A list of edges, written as a sequence.
pub open spec fn dumps_edges(v: Yaml, edges: Seq<Edge>) -> bool {
    v matches Yaml::Sequence(items) && items@.len() == edges.len()
        && forall|i: int| 0 <= i < edges.len() ==> dumps_edge(#[trigger] items@[i], edges[i])
}

/// A list of exposed ports, written as a sequence.
pub open spec fn dumps_group_ports(v: Yaml, ports: Seq<GroupPort>) -> bool {
    v matches Yaml::Sequence(items) && items@.len() == ports.len()
        && forall|i: int| 0 <= i < ports.len() ==> dumps_group_port(#[trigger] items@[i], ports[i])
}

/// How a group is written.
pub open spec fn dumps_group(v: Yaml, g: GroupDefinition) -> bool {
    v matches Yaml::Mapping(es) && {
        &&& keys_among(es@, group_field_names())
        &&& field(es@, "name"@, true, |y: Yaml| is_text(y, g.name@))
        &&& field(es@, "inputs"@, true, |y: Yaml| dumps_group_ports(y, g.inputs@))
        &&& field(es@, "outputs"@, true, |y: Yaml| dumps_group_ports(y, g.outputs@))
        &&& field(es@, "nodes"@, true, |y: Yaml| dumps_nodes(y, g.nodes@))
        &&& field(es@, "edges"@, true, |y: Yaml| dumps_edges(y, g.edges@))
    }
}

/// A list of groups, written as a sequence.
pub open spec fn dumps_groups(v: Yaml, groups: Seq<GroupDefinition>) -> bool {
    v matches Yaml::Sequence(items) && items@.len() == groups.len()
        && forall|i: int| 0 <= i < groups.len() ==> dumps_group(#[trigger] items@[i], groups[i])
}

/// How a graph definition is written.
pub open spec fn dumps_document(v: Yaml, g: GraphDefinition) -> bool {
    v matches Yaml::Mapping(es) && {
        &&& keys_among(es@, document_field_names())
        &&& field(es@, "schema_version"@, true, |y: Yaml| y == Yaml::Number(YamlNumber::PosInt(g.schema_version)))
        &&& field(es@, "name"@, g.name is Some, |y: Yaml| is_text(y, g.name->0@))
        &&& field(es@, "nodes"@, true, |y: Yaml| dumps_nodes(y, g.nodes@))
        &&& field(es@, "edges"@, true, |y: Yaml| dumps_edges(y, g.edges@))
        &&& field(es@, "groups"@, g.groups@.len() > 0, |y: Yaml| dumps_groups(y, g.groups@))
    }
}

proof fn lemma_lookup_push_at(es: Seq<YamlEntry>, e: YamlEntry, name: Seq<char>)
    ensures
        lookup(es.push(e), name) == if lookup(es, name) is Some {
            lookup(es, name)
        } else if key_is(e, name) {
            Some(e.value)
        } else {
            None::<Yaml>
        },
    decreases es.len(),
{
    let pushed = es.push(e);
    if es.len() == 0 {
        assert(pushed.drop_first() =~= Seq::<YamlEntry>::empty());
        assert(pushed[0] == e);
        assert(lookup(Seq::<YamlEntry>::empty(), name) is None);
    } else {
        assert(pushed.drop_first() =~= es.drop_first().push(e));
        assert(pushed[0] == es[0]);
        lemma_lookup_push_at(es.drop_first(), e, name);
    }
}

/// Appending an entry leaves every name the mapping already had where it
/// was, and adds the new key's value where the name was missing.
pub proof fn lemma_lookup_push(es: Seq<YamlEntry>, e: YamlEntry)
    ensures
        forall|name: Seq<char>| #[trigger] lookup(es.push(e), name) == if lookup(es, name) is Some {
            lookup(es, name)
        } else if key_is(e, name) {
            Some(e.value)
        } else {
            None::<Yaml>
        },
{
    assert forall|name: Seq<char>| #[trigger] lookup(es.push(e), name) == if lookup(es, name) is Some {
        lookup(es, name)
    } else if key_is(e, name) {
        Some(e.value)
    } else {
        None::<Yaml>
    } by {
        lemma_lookup_push_at(es, e, name);
    }
}

/// Appending an entry keyed by one of `names` keeps every key among them.
proof fn lemma_keys_push(es: Seq<YamlEntry>, names: Seq<Seq<char>>, e: YamlEntry, k: int)
    requires
        keys_among(es, names),
        0 <= k < names.len(),
        key_is(e, names[k]),
    ensures
        keys_among(es.push(e), names),
{
    assert forall|i: int| 0 <= i < es.push(e).len() implies ((#[trigger] es.push(e)[i]).key matches Yaml::Text(t) && names.contains(t@)) by {
        if i == es.len() {
            assert(names[k] == names[k]);
        } else {
            assert(es.push(e)[i] == es[i]);
        }
    }
}

/// A mapping entry keyed by `name`.
fn entry(name: &str, value: Yaml) -> (e: YamlEntry)
    ensures
        key_is(e, name@),
        e.value == value,
{
    YamlEntry { key: Yaml::Text(name.to_owned()), key_text: name.to_owned(), value }
}

/// A text value.
fn text(t: &String) -> (y: Yaml)
    ensures
        is_text(y, t@),
{
    Yaml::Text(t.clone())
}

/// A uuid, written in its hyphenated text form.
fn uuid_value(id: u128) -> (y: Yaml)
    ensures
        is_text(y, hyphenated(id)),
{
    Yaml::Text(uuid_text(id))
}

/// A parameter value as written.
pub fn dump_parameter(p: &ParameterValue) -> (y: Yaml)
    ensures
        dumps_parameter(y, *p),
{
    match p {
        ParameterValue::Bool(b) => Yaml::Bool(*b),
        ParameterValue::Int(i) => {
            if *i >= 0 {
                Yaml::Number(YamlNumber::PosInt(*i as u64))
            } else {
                Yaml::Number(YamlNumber::NegInt(*i))
            }
        },
        ParameterValue::Float(f) => Yaml::Number(YamlNumber::Float(f.copy())),
        ParameterValue::Str(s) => text(s),
    }
}

fn dump_parameters(parameters: &Vec<(String, ParameterValue)>) -> (y: Yaml)
    ensures
        dumps_parameters(y, parameters@),
{
    let mut es: Vec<YamlEntry> = Vec::new();
    let mut i: usize = 0;
    while i < parameters.len()
        invariant
            i <= parameters@.len(),
            es@.len() == i,
            forall|j: int| 0 <= j < i ==> {
                &&& key_is(#[trigger] es@[j], parameters@[j].0@)
                &&& dumps_parameter(es@[j].value, parameters@[j].1)
            },
        decreases parameters@.len() - i,
    {
        es.push(entry(parameters[i].0.as_str(), dump_parameter(&parameters[i].1)));
        i = i + 1;
    }
    Yaml::Mapping(es)
}

/// Append the field `name` holding `value`.
fn push_field(es: &mut Vec<YamlEntry>, name: &str, value: Yaml)
    ensures
        forall|n: Seq<char>| #[trigger] lookup(final(es)@, n) == if lookup(old(es)@, n) is Some {
            lookup(old(es)@, n)
        } else if n == name@ {
            Some(value)
        } else {
            None::<Yaml>
        },
        forall|names: Seq<Seq<char>>| keys_among(old(es)@, names) && names.contains(name@) ==> #[trigger] keys_among(final(es)@, names),
{
    let ghost before = es@;
    let e = entry(name, value);
    es.push(e);
    proof {
        lemma_lookup_push(before, e);
        assert forall|names: Seq<Seq<char>>| keys_among(before, names) && names.contains(name@) implies #[trigger] keys_among(es@, names) by {
            let k = choose|k: int| 0 <= k < names.len() && names[k] == name@;
            lemma_keys_push(before, names, e, k);
        }
    }
}

/// The field names a graph file's mappings carry, letter by letter.
proof fn reveal_field_names()
    ensures
        "uuid"@ == seq!['u', 'u', 'i', 'd'],
        "type_ref"@ == seq!['t', 'y', 'p', 'e', '_', 'r', 'e', 'f'],
        "label"@ == seq!['l', 'a', 'b', 'e', 'l'],
        "parameters"@ == seq!['p', 'a', 'r', 'a', 'm', 'e', 't', 'e', 'r', 's'],
        "metadata"@ == seq!['m', 'e', 't', 'a', 'd', 'a', 't', 'a'],
        "from"@ == seq!['f', 'r', 'o', 'm'],
        "from_port"@ == seq!['f', 'r', 'o', 'm', '_', 'p', 'o', 'r', 't'],
        "to"@ == seq!['t', 'o'],
        "to_port"@ == seq!['t', 'o', '_', 'p', 'o', 'r', 't'],
        "name"@ == seq!['n', 'a', 'm', 'e'],
        "type_refs"@ == seq!['t', 'y', 'p', 'e', '_', 'r', 'e', 'f', 's'],
        "node"@ == seq!['n', 'o', 'd', 'e'],
        "port"@ == seq!['p', 'o', 'r', 't'],
        "inputs"@ == seq!['i', 'n', 'p', 'u', 't', 's'],
        "outputs"@ == seq!['o', 'u', 't', 'p', 'u', 't', 's'],
        "nodes"@ == seq!['n', 'o', 'd', 'e', 's'],
        "edges"@ == seq!['e', 'd', 'g', 'e', 's'],
        "schema_version"@ == seq!['s', 'c', 'h', 'e', 'm', 'a', '_', 'v', 'e', 'r', 's', 'i', 'o', 'n'],
        "groups"@ == seq!['g', 'r', 'o', 'u', 'p', 's'],
{
    reveal_strlit("uuid");
    reveal_strlit("type_ref");
    reveal_strlit("label");
    reveal_strlit("parameters");
    reveal_strlit("metadata");
    reveal_strlit("from");
    reveal_strlit("from_port");
    reveal_strlit("to");
    reveal_strlit("to_port");
    reveal_strlit("name");
    reveal_strlit("type_refs");
    reveal_strlit("node");
    reveal_strlit("port");
    reveal_strlit("inputs");
    reveal_strlit("outputs");
    reveal_strlit("nodes");
    reveal_strlit("edges");
    reveal_strlit("schema_version");
    reveal_strlit("groups");
}

/// A node instance as written.
pub fn dump_node(n: &NodeInstance) -> (y: Yaml)
    ensures
        dumps_node(y, *n),
{
    proof {
        reveal_field_names();
    }
    let ghost names = node_field_names();
    assert(names[0] == "uuid"@ && names[1] == "type_ref"@ && names[2] == "label"@ && names[3] == "parameters"@
        && names[4] == "metadata"@);
    let mut es: Vec<YamlEntry> = Vec::new();
    push_field(&mut es, "uuid", uuid_value(n.uuid));
    push_field(&mut es, "type_ref", text(&n.type_ref));
    match &n.label {
        Some(label) => push_field(&mut es, "label", text(label)),
        None => {},
    }
    if n.parameters.len() > 0 {
        push_field(&mut es, "parameters", dump_parameters(&n.parameters));
    }
    if n.metadata.len() > 0 {
        let metadata = copy_metadata(&n.metadata);
        push_field(&mut es, "metadata", Yaml::Mapping(metadata));
    }
    Yaml::Mapping(es)
}

/// An edge as written.
pub fn dump_edge(e: &Edge) -> (y: Yaml)
    ensures
        dumps_edge(y, *e),
{
    proof {
        reveal_field_names();
    }
    let ghost names = edge_field_names();
    assert(names[0] == "from"@ && names[1] == "from_port"@ && names[2] == "to"@ && names[3] == "to_port"@);
    let mut es: Vec<YamlEntry> = Vec::new();
    push_field(&mut es, "from", uuid_value(e.from));
    push_field(&mut es, "from_port", text(&e.from_port));
    push_field(&mut es, "to", uuid_value(e.to));
    push_field(&mut es, "to_port", text(&e.to_port));
    Yaml::Mapping(es)
}

fn dump_texts(texts: &Vec<String>) -> (y: Yaml)
    ensures
        dumps_texts(y, texts@),
{
    let mut items: Vec<Yaml> = Vec::new();
    let mut i: usize = 0;
    while i < texts.len()
        invariant
            i <= texts@.len(),
            items@.len() == i,
            forall|j: int| 0 <= j < i ==> is_text(#[trigger] items@[j], texts@[j]@),
        decreases texts@.len() - i,
    {
        items.push(text(&texts[i]));
        i = i + 1;
    }
    Yaml::Sequence(items)
}

fn dump_group_port(p: &GroupPort) -> (y: Yaml)
    ensures
        dumps_group_port(y, *p),
{
    proof {
        reveal_field_names();
    }
    let ghost names = group_port_field_names();
    assert(names[0] == "name"@ && names[1] == "type_refs"@ && names[2] == "node"@ && names[3] == "port"@);
    let mut es: Vec<YamlEntry> = Vec::new();
    push_field(&mut es, "name", text(&p.name));
    push_field(&mut es, "type_refs", dump_texts(&p.type_refs));
    push_field(&mut es, "node", uuid_value(p.node));
    push_field(&mut es, "port", text(&p.port));
    Yaml::Mapping(es)
}

fn dump_nodes(nodes: &Vec<NodeInstance>) -> (y: Yaml)
    ensures
        dumps_nodes(y, nodes@),
{
    let mut items: Vec<Yaml> = Vec::new();
    let mut i: usize = 0;
    while i < nodes.len()
        invariant
            i <= nodes@.len(),
            items@.len() == i,
            forall|j: int| 0 <= j < i ==> dumps_node(#[trigger] items@[j], nodes@[j]),
        decreases nodes@.len() - i,
    {
        items.push(dump_node(&nodes[i]));
        i = i + 1;
    }
    Yaml::Sequence(items)
}

fn dump_edges(edges: &Vec<Edge>) -> (y: Yaml)
    ensures
        dumps_edges(y, edges@),
{
    let mut items: Vec<Yaml> = Vec::new();
    let mut i: usize = 0;
    while i < edges.len()
        invariant
            i <= edges@.len(),
            items@.len() == i,
            forall|j: int| 0 <= j < i ==> dumps_edge(#[trigger] items@[j], edges@[j]),
        decreases edges@.len() - i,
    {
        items.push(dump_edge(&edges[i]));
        i = i + 1;
    }
    Yaml::Sequence(items)
}

fn dump_group_ports(ports: &Vec<GroupPort>) -> (y: Yaml)
    ensures
        dumps_group_ports(y, ports@),
{
    let mut items: Vec<Yaml> = Vec::new();
    let mut i: usize = 0;
    while i < ports.len()
        invariant
            i <= ports@.len(),
            items@.len() == i,
            forall|j: int| 0 <= j < i ==> dumps_group_port(#[trigger] items@[j], ports@[j]),
        decreases ports@.len() - i,
    {
        items.push(dump_group_port(&ports[i]));
        i = i + 1;
    }
    Yaml::Sequence(items)
}

fn dump_group(g: &GroupDefinition) -> (y: Yaml)
    ensures
        dumps_group(y, *g),
{
    proof {
        reveal_field_names();
    }
    let ghost names = group_field_names();
    assert(names[0] == "name"@ && names[1] == "inputs"@ && names[2] == "outputs"@ && names[3] == "nodes"@
        && names[4] == "edges"@);
    let mut es: Vec<YamlEntry> = Vec::new();
    push_field(&mut es, "name", text(&g.name));
    push_field(&mut es, "inputs", dump_group_ports(&g.inputs));
    push_field(&mut es, "outputs", dump_group_ports(&g.outputs));
    push_field(&mut es, "nodes", dump_nodes(&g.nodes));
    push_field(&mut es, "edges", dump_edges(&g.edges));
    Yaml::Mapping(es)
}

fn dump_groups(groups: &Vec<GroupDefinition>) -> (y: Yaml)
    ensures
        dumps_groups(y, groups@),
{
    let mut items: Vec<Yaml> = Vec::new();
    let mut i: usize = 0;
    while i < groups.len()
        invariant
            i <= groups@.len(),
            items@.len() == i,
            forall|j: int| 0 <= j < i ==> dumps_group(#[trigger] items@[j], groups@[j]),
        decreases groups@.len() - i,
    {
        items.push(dump_group(&groups[i]));
        i = i + 1;
    }
    Yaml::Sequence(items)
}

/// A graph definition written back out as the YAML tree of a graph file:
/// the schema version, the name when there is one, the nodes and edges,
/// and the groups when there are any.
pub fn dump_document(g: &GraphDefinition) -> (y: Yaml)
    ensures
        dumps_document(y, *g),
{
    proof {
        reveal_field_names();
    }
    let ghost names = document_field_names();
    assert(names[0] == "schema_version"@ && names[1] == "name"@ && names[2] == "nodes"@ && names[3] == "edges"@
        && names[4] == "groups"@);
    let mut es: Vec<YamlEntry> = Vec::new();
    push_field(&mut es, "schema_version", Yaml::Number(YamlNumber::PosInt(g.schema_version)));
    match &g.name {
        Some(name) => push_field(&mut es, "name", text(name)),
        None => {},
    }
    push_field(&mut es, "nodes", dump_nodes(&g.nodes));
    push_field(&mut es, "edges", dump_edges(&g.edges));
    if g.groups.len() > 0 {
        push_field(&mut es, "groups", dump_groups(&g.groups));
    }
    Yaml::Mapping(es)
}

/// Two parameter values are identical: the same kind and payload, a float
/// by its bits, its narrowing and both its texts.
pub open spec fn identical_parameter(a: ParameterValue, b: ParameterValue) -> bool {
    match (a, b) {
        (ParameterValue::Bool(x), ParameterValue::Bool(y)) => x == y,
        (ParameterValue::Int(x), ParameterValue::Int(y)) => x == y,
        (ParameterValue::Float(x), ParameterValue::Float(y)) => x.bits == y.bits && x.narrowed == y.narrowed
            && x.text@ == y.text@ && x.number_text@ == y.number_text@,
        (ParameterValue::Str(x), ParameterValue::Str(y)) => x@ == y@,
        _ => false,
    }
}

/// Two parameter lists hold the same names, in order, with identical values.
pub open spec fn same_parameters(a: Seq<(String, ParameterValue)>, b: Seq<(String, ParameterValue)>) -> bool {
    &&& a.len() == b.len()
    &&& forall|i: int| 0 <= i < a.len() ==> (#[trigger] a[i]).0@ == b[i].0@ && identical_parameter(a[i].1, b[i].1)
}

/// Two optional texts say the same.
pub open spec fn same_text_option(a: Option<String>, b: Option<String>) -> bool {
    match (a, b) {
        (None, None) => true,
        (Some(x), Some(y)) => x@ == y@,
        _ => false,
    }
}

/// `b` is node `a` as read back.
pub open spec fn reads_node(a: NodeInstance, b: NodeInstance) -> bool {
    &&& a.uuid == b.uuid
    &&& a.type_ref@ == b.type_ref@
    &&& same_text_option(a.label, b.label)
    &&& same_parameters(a.parameters@, b.parameters@)
    &&& same_entries(a.metadata@, b.metadata@)
}

/// `b` is edge `a` as read back.
pub open spec fn reads_edge(a: Edge, b: Edge) -> bool {
    a.from == b.from && a.from_port@ == b.from_port@ && a.to == b.to && a.to_port@ == b.to_port@
}

/// `b` is the exposed port `a` as read back.
pub open spec fn reads_group_port(a: GroupPort, b: GroupPort) -> bool {
    &&& a.name@ == b.name@
    &&& a.type_refs@.len() == b.type_refs@.len()
    &&& forall|i: int| 0 <= i < a.type_refs@.len() ==> (#[trigger] a.type_refs@[i])@ == b.type_refs@[i]@
    &&& a.node == b.node
    &&& a.port@ == b.port@
}

/// `b` is the list of nodes `a` as read back.
pub open spec fn reads_nodes(a: Seq<NodeInstance>, b: Seq<NodeInstance>) -> bool {
    a.len() == b.len() && forall|i: int| 0 <= i < a.len() ==> reads_node(#[trigger] a[i], b[i])
}

/// `b` is the list of edges `a` as read back.
pub open spec fn reads_edges(a: Seq<Edge>, b: Seq<Edge>) -> bool {
    a.len() == b.len() && forall|i: int| 0 <= i < a.len() ==> reads_edge(#[trigger] a[i], b[i])
}

/// `b` is the list of exposed ports `a` as read back.
pub open spec fn reads_group_ports(a: Seq<GroupPort>, b: Seq<GroupPort>) -> bool {
    a.len() == b.len() && forall|i: int| 0 <= i < a.len() ==> reads_group_port(#[trigger] a[i], b[i])
}

/// `b` is group `a` as read back.
pub open spec fn reads_group(a: GroupDefinition, b: GroupDefinition) -> bool {
    &&& a.name@ == b.name@
    &&& reads_group_ports(a.inputs@, b.inputs@)
    &&& reads_group_ports(a.outputs@, b.outputs@)
    &&& reads_nodes(a.nodes@, b.nodes@)
    &&& reads_edges(a.edges@, b.edges@)
}

/// `b` is the graph definition `a` as read back.
pub open spec fn reads_document(a: GraphDefinition, b: GraphDefinition) -> bool {
    &&& a.schema_version == b.schema_version
    &&& same_text_option(a.name, b.name)
    &&& reads_nodes(a.nodes@, b.nodes@)
    &&& reads_edges(a.edges@, b.edges@)
    &&& a.groups@.len() == b.groups@.len()
    &&& forall|i: int| 0 <= i < a.groups@.len() ==> reads_group(#[trigger] a.groups@[i], b.groups@[i])
}

/// Two YAML trees the same as a third are the same as each other.
pub proof fn lemma_same_yaml_transitive(a: Yaml, b: Yaml, c: Yaml)
    requires
        same_yaml(a, b),
        same_yaml(b, c),
    ensures
        same_yaml(a, c),
    decreases a,
{
    match a {
        Yaml::Sequence(xs) => {
            let ys = b->Sequence_0;
            let zs = c->Sequence_0;
            assert forall|i: int| 0 <= i < xs@.len() implies same_yaml(#[trigger] xs@[i], zs@[i]) by {
                lemma_same_yaml_transitive(xs@[i], ys@[i], zs@[i]);
            }
        },
        Yaml::Mapping(xs) => {
            let ys = b->Mapping_0;
            let zs = c->Mapping_0;
            assert forall|i: int| 0 <= i < xs@.len() implies {
                &&& same_yaml((#[trigger] xs@[i]).key, zs@[i].key)
                &&& xs@[i].key_text@ == zs@[i].key_text@
                &&& same_yaml(xs@[i].value, zs@[i].value)
            } by {
                lemma_same_yaml_transitive(xs@[i].key, ys@[i].key, zs@[i].key);
                lemma_same_yaml_transitive(xs@[i].value, ys@[i].value, zs@[i].value);
            }
        },
        Yaml::Tagged(t, x) => {
            let (u, y) = (b->Tagged_0, b->Tagged_1);
            let (v, z) = (c->Tagged_0, c->Tagged_1);
            lemma_same_yaml_transitive(*x, *y, *z);
        },
        _ => {},
    }
}

/// Two metadata lists the same as a third are the same as each other.
pub proof fn lemma_same_entries_transitive(a: Seq<YamlEntry>, b: Seq<YamlEntry>, c: Seq<YamlEntry>)
    requires
        same_entries(a, b),
        same_entries(b, c),
    ensures
        same_entries(a, c),
{
    assert forall|i: int| 0 <= i < a.len() implies {
        &&& same_yaml((#[trigger] a[i]).key, c[i].key)
        &&& a[i].key_text@ == c[i].key_text@
        &&& same_yaml(a[i].value, c[i].value)
    } by {
        lemma_same_yaml_transitive(a[i].key, b[i].key, c[i].key);
        lemma_same_yaml_transitive(a[i].value, b[i].value, c[i].value);
    }
}

} // verus!
