//! Loading a graph definition from the YAML tree a graph file is read
//! into. Graph files are untrusted input at a parse boundary: a file that
//! fails to load fails with a precise [`LoadError`] naming where the
//! problem sits, never a panic. Every structural mapping admits only its
//! own fields; the node and edge lists of the top level and of each group
//! are cross-checked against each other.

use vstd::prelude::*;
use vstd::string::StringExecFns;
use crate::graph::{
    has_parameter, contains_parameter, Edge, GraphDefinition, GroupDefinition, GroupPort, NodeInstance,
    ParameterValue, Yaml, YamlEntry, YamlNumber, SCHEMA_VERSION,
};
use crate::ids::{parse_uuid, uuid_text};
use crate::instances::{carried, instance_with};
use crate::text::{decimal_text, same_text};
use crate::document::{
    document_field_names, dumps_document, dumps_edge, dumps_edges, dumps_group, dumps_group_port, dumps_group_ports,
    dumps_groups, dumps_node, dumps_nodes, dumps_parameters, edge_field_names, group_field_names, group_port_field_names,
    is_text, keys_among, lookup, node_field_names, reads_document, reads_edge, reads_edges, reads_group, reads_group_port,
    reads_group_ports, reads_node, reads_nodes, same_parameters,
};
use crate::ids::hyphenated;

verus! {

/// Where a load error sits: line and column for malformed YAML, a path into
/// the document for shape errors — one a text editor can jump to.
#[derive(Debug)]
pub enum LoadLocation {
    Position { line: u64, column: u64 },
    Path(String),
}

/// Why a graph file failed to load, naming the problem and where it sits.
#[derive(Debug)]
pub struct LoadError {
    pub location: LoadLocation,
    pub message: String,
}

impl LoadError {
    /// The error as text: its location, a colon, and the message.
    pub fn text(&self) -> (text: String)
        ensures
            text@ == match self.location {
                LoadLocation::Position { line, column } => "line "@ + crate::text::decimal(line as nat) + ", column "@
                    + crate::text::decimal(column as nat),
                LoadLocation::Path(path) => path@,
            } + ": "@ + self.message@,
    {
        let mut text = match &self.location {
            LoadLocation::Position { line, column } => {
                let mut at = "line ".to_owned();
                let l = decimal_text(*line as u128);
                at.append(l.as_str());
                at.append(", column ");
                let c = decimal_text(*column as u128);
                at.append(c.as_str());
                at
            },
            LoadLocation::Path(path) => path.clone(),
        };
        text.append(": ");
        text.append(self.message.as_str());
        text
    }
}

/// An error at a document path.
pub fn err(path: &str, message: String) -> (e: LoadError)
    ensures
        e.location == LoadLocation::Path(e.location->Path_0) && e.location->Path_0@ == path@,
        e.message@ == message@,
{
    LoadError { location: LoadLocation::Path(path.to_owned()), message }
}

/// What kind of YAML value this is, for messages.
pub open spec fn kind_text(value: Yaml) -> Seq<char> {
    match value {
        Yaml::Null => "null"@,
        Yaml::Bool(_) => "a boolean"@,
        Yaml::Number(YamlNumber::Float(_)) => "a float"@,
        Yaml::Number(_) => "an integer"@,
        Yaml::Text(_) => "a string"@,
        Yaml::Sequence(_) => "a sequence"@,
        Yaml::Mapping(_) => "a mapping"@,
        Yaml::Tagged(..) => "a tagged value"@,
    }
}

pub fn kind(value: &Yaml) -> (text: &'static str)
    ensures
        text@ == kind_text(*value),
{
    match value {
        Yaml::Null => "null",
        Yaml::Bool(_) => "a boolean",
        Yaml::Number(YamlNumber::Float(_)) => "a float",
        Yaml::Number(_) => "an integer",
        Yaml::Text(_) => "a string",
        Yaml::Sequence(_) => "a sequence",
        Yaml::Mapping(_) => "a mapping",
        Yaml::Tagged(..) => "a tagged value",
    }
}

/// A path into the document with one more field: `path.field`.
fn field_path(path: &str, field: &str) -> (joined: String)
    ensures
        joined@ == path@ + "."@ + field@,
{
    let mut joined = path.to_owned();
    joined.append(".");
    joined.append(field);
    joined
}

/// A path into the document with one more index: `path[index]`.
fn index_path(path: &str, index: usize) -> (joined: String)
    ensures
        joined@ == path@ + "["@ + crate::text::decimal(index as nat) + "]"@,
{
    let mut joined = path.to_owned();
    joined.append("[");
    let digits = decimal_text(index as u128);
    joined.append(digits.as_str());
    joined.append("]");
    joined
}

fn as_mapping<'v>(value: &'v Yaml, path: &str) -> (entries: Result<&'v Vec<YamlEntry>, LoadError>)
    ensures
        match entries {
            Ok(e) => *value == Yaml::Mapping(*e),
            Err(_) => !(*value is Mapping),
        },
{
    match value {
        Yaml::Mapping(entries) => Ok(entries),
        _ => {
            let mut message = "must be a mapping, not ".to_owned();
            message.append(kind(value));
            Err(err(path, message))
        },
    }
}

fn as_sequence<'v>(value: &'v Yaml, path: &str) -> (items: Result<&'v Vec<Yaml>, LoadError>)
    ensures
        match items {
            Ok(i) => *value == Yaml::Sequence(*i),
            Err(_) => !(*value is Sequence),
        },
{
    match value {
        Yaml::Sequence(items) => Ok(items),
        _ => {
            let mut message = "must be a sequence, not ".to_owned();
            message.append(kind(value));
            Err(err(path, message))
        },
    }
}

fn as_text<'v>(value: &'v Yaml, path: &str) -> (text: Result<&'v String, LoadError>)
    ensures
        match text {
            Ok(t) => *value == Yaml::Text(*t),
            Err(_) => !(*value is Text),
        },
{
    match value {
        Yaml::Text(text) => Ok(text),
        _ => {
            let mut message = "must be a string, not ".to_owned();
            message.append(kind(value));
            Err(err(path, message))
        },
    }
}

/// The value a mapping holds under the string key `name`, the first such.
fn get<'v>(entries: &'v Vec<YamlEntry>, name: &str) -> (found: Option<&'v Yaml>)
    ensures
        match found {
            Some(v) => lookup(entries@, name@) == Some(*v),
            None => lookup(entries@, name@) is None,
        },
{
    let mut i: usize = 0;
    assert(entries@.subrange(0, entries@.len() as int) =~= entries@);
    while i < entries.len()
        invariant
            i <= entries@.len(),
            lookup(entries@, name@) == lookup(entries@.subrange(i as int, entries@.len() as int), name@),
        decreases entries.len() - i,
    {
        let ghost rest = entries@.subrange(i as int, entries@.len() as int);
        assert(rest.drop_first() =~= entries@.subrange(i + 1, entries@.len() as int));
        assert(rest[0] == entries@[i as int]);
        match &entries[i].key {
            Yaml::Text(key) => {
                if same_text(key.as_str(), name) {
                    return Some(&entries[i].value);
                }
            },
            _ => {},
        }
        i = i + 1;
    }
    assert(entries@.subrange(entries@.len() as int, entries@.len() as int).len() == 0);
    None
}

/// A required field, or the error naming it missing at `path`.
fn required<'v>(entries: &'v Vec<YamlEntry>, name: &str, path: &str) -> (found: Result<&'v Yaml, LoadError>)
    ensures
        match found {
            Ok(v) => lookup(entries@, name@) == Some(*v),
            Err(_) => lookup(entries@, name@) is None,
        },
{
    match get(entries, name) {
        Some(value) => Ok(value),
        None => {
            let mut message = "missing field `".to_owned();
            message.append(name);
            message.append("`");
            Err(err(path, message))
        },
    }
}

/// The texts of a list of names.
pub open spec fn view_names(names: Seq<&str>) -> Seq<Seq<char>> {
    Seq::new(names.len(), |j: int| names[j]@)
}

/// Whether `name` is one of the allowed field names.
fn allowed_field(allowed: &Vec<&str>, name: &str) -> (found: bool)
    ensures
        found == view_names(allowed@).contains(name@),
{
    let mut i: usize = 0;
    while i < allowed.len()
        invariant
            i <= allowed@.len(),
            forall|j: int| 0 <= j < i ==> view_names(allowed@)[j] != name@,
        decreases allowed.len() - i,
    {
        if same_text(allowed[i], name) {
            assert(view_names(allowed@)[i as int] == name@);
            return true;
        }
        i = i + 1;
    }
    false
}

/// The field names, each in backticks.
pub open spec fn ticked_names(names: Seq<&str>) -> Seq<Seq<char>> {
    Seq::new(names.len(), |j: int| "`"@ + names[j]@ + "`"@)
}

/// The error for a key no field of the mapping takes: at the key's path,
/// naming the key and every field the mapping does take.
fn unknown_field(path: &str, key: &str, expected: &Vec<&str>) -> (e: LoadError)
    ensures
        e.location matches LoadLocation::Path(at) && at@ == path@,
        e.message@ == "unknown field `"@ + key@ + "`, expected one of "@ + crate::text::joined(ticked_names(expected@), ", "@),
{
    let mut message = "unknown field `".to_owned();
    message.append(key);
    message.append("`, expected one of ");
    let ghost start = message@;
    let mut i: usize = 0;
    while i < expected.len()
        invariant
            i <= expected@.len(),
            message@ == start + crate::text::joined(ticked_names(expected@.subrange(0, i as int)), ", "@),
        decreases expected.len() - i,
    {
        assert(ticked_names(expected@.subrange(0, i + 1)).drop_last() =~= ticked_names(expected@.subrange(0, i as int)));
        assert(ticked_names(expected@.subrange(0, i + 1)).last() == "`"@ + expected@[i as int]@ + "`"@);
        if i > 0 {
            message.append(", ");
        }
        message.append("`");
        message.append(expected[i]);
        message.append("`");
        assert(message@ =~= start + crate::text::joined(ticked_names(expected@.subrange(0, i + 1)), ", "@));
        i = i + 1;
    }
    assert(expected@.subrange(0, expected@.len() as int) =~= expected@);
    err(path, message)
}

/// Whether an entry's key is a text among the names.
pub open spec fn known_key(entry: YamlEntry, names: Seq<Seq<char>>) -> bool {
    entry.key matches Yaml::Text(t) && names.contains(t@)
}

/// The position of the first entry whose key is not among the names, or
/// the count of entries.
pub open spec fn first_unknown(entries: Seq<YamlEntry>, names: Seq<Seq<char>>) -> int
    decreases entries.len(),
{
    if entries.len() == 0 {
        0
    } else if known_key(entries[0], names) {
        1 + first_unknown(entries.drop_first(), names)
    } else {
        0
    }
}

/// The refusal of a key no field takes, naming the key and every field.
pub open spec fn unknown_field_text(key: Seq<char>, names: Seq<Seq<char>>) -> Seq<char> {
    "unknown field `"@ + key + "`, expected one of "@
        + crate::text::joined(Seq::new(names.len(), |j: int| "`"@ + names[j] + "`"@), ", "@)
}

/// A mapping whose keys must all be among the allowed fields; an unknown
/// key is an error named at the key's own path.
fn fields<'v>(value: &'v Yaml, path: &str, allowed: &Vec<&str>) -> (entries: Result<&'v Vec<YamlEntry>, LoadError>)
    ensures
        entries matches Ok(es) ==> *value == Yaml::Mapping(*es),
        entries matches Ok(es) ==> keys_among(es@, view_names(allowed@)),
        (*value matches Yaml::Mapping(es) && keys_among(es@, view_names(allowed@))) ==> entries is Ok,
        match *value {
            Yaml::Mapping(es) => first_unknown(es@, view_names(allowed@)) < es@.len() ==> refused_at(entries,
                path@ + "."@ + es@[first_unknown(es@, view_names(allowed@))].key_text@,
                unknown_field_text(es@[first_unknown(es@, view_names(allowed@))].key_text@, view_names(allowed@))),
            _ => true,
        },
{
    let entries = as_mapping(value, path)?;
    let ghost names = view_names(allowed@);
    assert(entries@.subrange(0, entries@.len() as int) =~= entries@);
    let mut i: usize = 0;
    while i < entries.len()
        invariant
            *value == Yaml::Mapping(*entries),
            names == view_names(allowed@),
            i <= entries@.len(),
            first_unknown(entries@, names) == i + first_unknown(entries@.subrange(i as int, entries@.len() as int), names),
            forall|j: int| 0 <= j < i ==> known_key(#[trigger] entries@[j], names),
        decreases entries.len() - i,
    {
        let ghost rest = entries@.subrange(i as int, entries@.len() as int);
        assert(rest.drop_first() =~= entries@.subrange(i + 1, entries@.len() as int));
        assert(rest[0] == entries@[i as int]);
        let entry = &entries[i];
        let known = match &entry.key {
            Yaml::Text(key) => allowed_field(allowed, key.as_str()),
            _ => false,
        };
        if !known {
            let at = field_path(path, entry.key_text.as_str());
            let e = unknown_field(at.as_str(), entry.key_text.as_str(), allowed);
            proof {
                assert(!known_key(entries@[i as int], names));
                assert(first_unknown(entries@, names) == i);
                assert(Seq::new(names.len(), |j: int| "`"@ + names[j] + "`"@) =~= ticked_names(allowed@));
            }
            return Err(e);
        }
        assert(known_key(entries@[i as int], names));
        i = i + 1;
    }
    assert(entries@.subrange(entries@.len() as int, entries@.len() as int).len() == 0);
    assert forall|j: int| 0 <= j < entries@.len() implies ((#[trigger] entries@[j]).key matches Yaml::Text(t) && names.contains(t@)) by {
        assert(known_key(entries@[j], names));
    }
    Ok(entries)
}

/// Whether a schema version is one this reader understands.
pub open spec fn supported_version(version: u64) -> bool {
    1 <= version <= SCHEMA_VERSION
}

/// The schema version a value carries, when it is a supported one.
/// Why a schema version is refused: what it holds where it is no
/// non-negative integer, else the version against the range understood.
pub open spec fn schema_version_problem(value: Yaml) -> Seq<char> {
    match value {
        Yaml::Number(YamlNumber::PosInt(v)) => "unsupported schema version "@ + crate::text::decimal(v as nat)
            + "; this reader understands versions 1 to "@ + crate::text::decimal(SCHEMA_VERSION as nat),
        Yaml::Number(YamlNumber::NegInt(v)) => "the schema version must be a non-negative integer, not "@
            + crate::parameters::signed_decimal(v as int),
        Yaml::Number(YamlNumber::Float(f)) => "the schema version must be a non-negative integer, not "@ + f.number_text@,
        _ => "the schema version must be a non-negative integer, not "@ + kind_text(value),
    }
}

pub fn check_schema_version(value: &Yaml) -> (version: Result<u64, LoadError>)
    ensures
        match version {
            Ok(v) => *value == Yaml::Number(YamlNumber::PosInt(v)) && supported_version(v),
            Err(e) => {
                &&& !(*value matches Yaml::Number(YamlNumber::PosInt(v)) && supported_version(v))
                &&& e.location matches LoadLocation::Path(path) && path@ == "schema_version"@
                &&& e.message@ == schema_version_problem(*value)
            },
        },
{
    let version = match value {
        Yaml::Number(YamlNumber::PosInt(v)) => *v,
        _ => {
            let mut message = "the schema version must be a non-negative integer, not ".to_owned();
            match value {
                Yaml::Number(YamlNumber::NegInt(v)) => {
                    let shown = crate::parameters::signed_text(*v);
                    message.append(shown.as_str());
                },
                Yaml::Number(YamlNumber::Float(f)) => message.append(f.number_text.as_str()),
                _ => message.append(kind(value)),
            }
            return Err(err("schema_version", message));
        },
    };
    if version == 0 || version > SCHEMA_VERSION {
        let mut message = "unsupported schema version ".to_owned();
        let shown = decimal_text(version as u128);
        message.append(shown.as_str());
        message.append("; this reader understands versions 1 to ");
        let newest = decimal_text(SCHEMA_VERSION as u128);
        message.append(newest.as_str());
        return Err(err("schema_version", message));
    }
    Ok(version)
}

/// The parameter value one plain scalar carries — the loader's one
/// reading, shared with the editor's commit path. The refusal is the bare
/// problem; callers name where the value sat.
pub fn read_parameter(value: &Yaml) -> (read: Result<ParameterValue, String>)
    ensures
        match *value {
            Yaml::Bool(b) => read == Ok::<ParameterValue, String>(ParameterValue::Bool(b)),
            Yaml::Number(YamlNumber::PosInt(v)) => if v <= i64::MAX {
                read == Ok::<ParameterValue, String>(ParameterValue::Int(v as i64))
            } else {
                read matches Err(message) && message@ == "the integer "@ + crate::text::decimal(v as nat)
                    + " does not fit a signed 64-bit integer"@
            },
            Yaml::Number(YamlNumber::NegInt(v)) => read == Ok::<ParameterValue, String>(ParameterValue::Int(v)),
            Yaml::Number(YamlNumber::Float(f)) => read matches Ok(ParameterValue::Float(g))
                && g.bits == f.bits && g.narrowed == f.narrowed && g.text@ == f.text@ && g.number_text@ == f.number_text@,
            Yaml::Text(t) => read matches Ok(ParameterValue::Str(s)) && s@ == t@,
            _ => read matches Err(message) && message@
                == "must be a plain scalar — boolean, integer, float, or string — not "@ + kind_text(*value),
        },
{
    match value {
        Yaml::Bool(b) => Ok(ParameterValue::Bool(*b)),
        Yaml::Number(YamlNumber::PosInt(v)) => {
            if *v <= i64::MAX as u64 {
                Ok(ParameterValue::Int(*v as i64))
            } else {
                let mut message = "the integer ".to_owned();
                let shown = decimal_text(*v as u128);
                message.append(shown.as_str());
                message.append(" does not fit a signed 64-bit integer");
                Err(message)
            }
        },
        Yaml::Number(YamlNumber::NegInt(v)) => Ok(ParameterValue::Int(*v)),
        Yaml::Number(YamlNumber::Float(f)) => Ok(ParameterValue::Float(f.copy())),
        Yaml::Text(t) => Ok(ParameterValue::Str(t.clone())),
        _ => {
            let mut message = "must be a plain scalar — boolean, integer, float, or string — not ".to_owned();
            message.append(kind(value));
            Err(message)
        },
    }
}

fn load_uuid(value: &Yaml, path: &str) -> (uuid: Result<u128, LoadError>)
    ensures
        forall|id: u128| #[trigger] is_text(*value, hyphenated(id)) ==> (uuid matches Ok(u) && u == id),
{
    let text = as_text(value, path)?;
    match parse_uuid(text.as_str()) {
        Some(id) => Ok(id),
        None => {
            let mut message = "invalid uuid `".to_owned();
            message.append(text.as_str());
            message.append("`");
            Err(err(path, message))
        },
    }
}

fn load_parameters(value: &Yaml, path: &str) -> (parameters: Result<Vec<(String, ParameterValue)>, LoadError>)
    ensures
        forall|ps: Seq<(String, ParameterValue)>| #[trigger] dumps_parameters(*value, ps)
            ==> (parameters matches Ok(loaded) && same_parameters(ps, loaded@)),
{
    let entries = as_mapping(value, path)?;
    let mut parameters: Vec<(String, ParameterValue)> = Vec::new();
    let mut i: usize = 0;
    while i < entries.len()
        invariant
            *value == Yaml::Mapping(*entries),
            i <= entries@.len(),
            parameters@.len() == i,
            forall|ps: Seq<(String, ParameterValue)>| #[trigger] dumps_parameters(*value, ps) ==> forall|j: int| 0 <= j < i
                ==> (#[trigger] ps[j]).0@ == parameters@[j].0@ && crate::document::identical_parameter(ps[j].1, parameters@[j].1),
        decreases entries.len() - i,
    {
        let entry = &entries[i];
        let name = match &entry.key {
            Yaml::Text(name) => name,
            _ => {
                let mut message = "the parameter name ".to_owned();
                message.append(entry.key_text.as_str());
                message.append(" is not a string");
                return Err(err(path, message));
            },
        };
        match read_parameter(&entry.value) {
            Ok(read) => parameters.push((name.clone(), read)),
            Err(message) => {
                let at = field_path(path, name.as_str());
                return Err(err(at.as_str(), message));
            },
        }
        i = i + 1;
    }
    Ok(parameters)
}

fn node_fields() -> (names: Vec<&'static str>)
    ensures
        view_names(names@) == node_field_names(),
{
    vec!["uuid", "type_ref", "label", "parameters", "metadata"]
}

fn load_node(node: &Yaml, path: &str) -> (loaded: Result<NodeInstance, LoadError>)
    ensures
        forall|n: NodeInstance| #[trigger] dumps_node(*node, n) ==> (loaded matches Ok(m) && reads_node(n, m)),
{
    let allowed = node_fields();
    let entries = fields(node, path, &allowed)?;
    let at = field_path(path, "uuid");
    let uuid = load_uuid(required(entries, "uuid", path)?, at.as_str())?;
    let at = field_path(path, "type_ref");
    let type_ref = as_text(required(entries, "type_ref", path)?, at.as_str())?.clone();
    let label = match get(entries, "label") {
        Some(value) => {
            let at = field_path(path, "label");
            Some(as_text(value, at.as_str())?.clone())
        },
        None => None,
    };
    let parameters = match get(entries, "parameters") {
        Some(value) => {
            let at = field_path(path, "parameters");
            load_parameters(value, at.as_str())?
        },
        None => Vec::new(),
    };
    let ghost mut source: Seq<YamlEntry> = Seq::empty();
    let metadata = match get(entries, "metadata") {
        Some(value) => {
            let at = field_path(path, "metadata");
            let held = as_mapping(value, at.as_str())?;
            proof {
                source = held@;
            }
            crate::graph::copy_metadata(held)
        },
        None => Vec::new(),
    };
    let loaded = NodeInstance { uuid, type_ref, label, parameters, metadata };
    proof {
        assert forall|n: NodeInstance| #[trigger] dumps_node(*node, n) implies reads_node(n, loaded) by {
            if n.metadata@.len() > 0 {
                crate::document::lemma_same_entries_transitive(n.metadata@, source, loaded.metadata@);
            }
        }
    }
    Ok(loaded)
}

fn load_nodes(value: &Yaml, path: &str) -> (loaded: Result<Vec<NodeInstance>, LoadError>)
    ensures
        forall|ns: Seq<NodeInstance>| #[trigger] dumps_nodes(*value, ns) ==> (loaded matches Ok(l) && reads_nodes(ns, l@)),
{
    let items = as_sequence(value, path)?;
    let mut nodes: Vec<NodeInstance> = Vec::new();
    let mut i: usize = 0;
    while i < items.len()
        invariant
            *value == Yaml::Sequence(*items),
            i <= items@.len(),
            nodes@.len() == i,
            forall|ns: Seq<NodeInstance>| #[trigger] dumps_nodes(*value, ns) ==> forall|j: int| 0 <= j < i
                ==> reads_node(#[trigger] ns[j], nodes@[j]),
        decreases items.len() - i,
    {
        let at = index_path(path, i);
        let node = load_node(&items[i], at.as_str())?;
        nodes.push(node);
        i = i + 1;
    }
    Ok(nodes)
}

fn edge_fields() -> (names: Vec<&'static str>)
    ensures
        view_names(names@) == edge_field_names(),
{
    vec!["from", "from_port", "to", "to_port"]
}

fn load_edge(edge: &Yaml, path: &str) -> (loaded: Result<Edge, LoadError>)
    ensures
        forall|e: Edge| #[trigger] dumps_edge(*edge, e) ==> (loaded matches Ok(l) && reads_edge(e, l)),
{
    let allowed = edge_fields();
    let entries = fields(edge, path, &allowed)?;
    let at = field_path(path, "from");
    let from = load_uuid(required(entries, "from", path)?, at.as_str())?;
    let at = field_path(path, "from_port");
    let from_port = as_text(required(entries, "from_port", path)?, at.as_str())?.clone();
    let at = field_path(path, "to");
    let to = load_uuid(required(entries, "to", path)?, at.as_str())?;
    let at = field_path(path, "to_port");
    let to_port = as_text(required(entries, "to_port", path)?, at.as_str())?.clone();
    Ok(Edge { from, from_port, to, to_port })
}

fn load_edges(value: &Yaml, path: &str) -> (loaded: Result<Vec<Edge>, LoadError>)
    ensures
        forall|es: Seq<Edge>| #[trigger] dumps_edges(*value, es) ==> (loaded matches Ok(l) && reads_edges(es, l@)),
{
    let items = as_sequence(value, path)?;
    let mut edges: Vec<Edge> = Vec::new();
    let mut i: usize = 0;
    while i < items.len()
        invariant
            *value == Yaml::Sequence(*items),
            i <= items@.len(),
            edges@.len() == i,
            forall|es: Seq<Edge>| #[trigger] dumps_edges(*value, es) ==> forall|j: int| 0 <= j < i
                ==> reads_edge(#[trigger] es[j], edges@[j]),
        decreases items.len() - i,
    {
        let at = index_path(path, i);
        let edge = load_edge(&items[i], at.as_str())?;
        edges.push(edge);
        i = i + 1;
    }
    Ok(edges)
}

/// One graph's node and edge lists agree: every uuid its own, every edge
/// landing on nodes of the graph, at most one edge into each input, and no
/// input both fed and holding a parameter value.
pub open spec fn graph_consistent(nodes: Seq<NodeInstance>, edges: Seq<Edge>) -> bool {
    &&& forall|i: int, j: int| 0 <= i < j < nodes.len() ==> (#[trigger] nodes[i]).uuid != (#[trigger] nodes[j]).uuid
    &&& forall|e: int| 0 <= e < edges.len() ==> carried(nodes, (#[trigger] edges[e]).from) && carried(nodes, edges[e].to)
    &&& forall|a: int, b: int| 0 <= a < b < edges.len() ==>
        !((#[trigger] edges[a]).to == (#[trigger] edges[b]).to && edges[a].to_port@ == edges[b].to_port@)
    &&& forall|e: int| 0 <= e < edges.len() ==>
        !has_parameter(instance_with(nodes, (#[trigger] edges[e]).to).parameters@, edges[e].to_port@)
}

/// The cross-checks between a graph's node list and its edge list; the
/// refusal names the first offence, located by `prefix` in the document
/// and naming the graph as `scope` does.
pub fn cross_check(prefix: &str, scope: &str, nodes: &Vec<NodeInstance>, edges: &Vec<Edge>) -> (checked: Result<(), LoadError>)
    ensures
        checked is Ok <==> graph_consistent(nodes@, edges@),
{
    let mut k: usize = 0;
    while k < nodes.len()
        invariant
            k <= nodes.len(),
            forall|i: int, j: int| 0 <= i < j < k ==> (#[trigger] nodes@[i]).uuid != (#[trigger] nodes@[j]).uuid,
        decreases nodes.len() - k,
    {
        match crate::instances::first_index(nodes, nodes[k].uuid) {
            Some(first) => {
                if first < k {
                    let mut message = "duplicate node uuid ".to_owned();
                    let id = uuid_text(nodes[k].uuid);
                    message.append(id.as_str());
                    message.append("; already used at ");
                    message.append(prefix);
                    let at = index_path("nodes", first);
                    message.append(at.as_str());
                    let mut path = prefix.to_owned();
                    let here = index_path("nodes", k);
                    path.append(here.as_str());
                    return Err(err(path.as_str(), message));
                }
            },
            None => {},
        }
        k = k + 1;
    }
    let mut e: usize = 0;
    while e < edges.len()
        invariant
            e <= edges.len(),
            forall|i: int, j: int| 0 <= i < j < nodes.len() ==> (#[trigger] nodes@[i]).uuid != (#[trigger] nodes@[j]).uuid,
            forall|m: int| 0 <= m < e ==> carried(nodes@, (#[trigger] edges@[m]).from) && carried(nodes@, edges@[m].to),
            forall|a: int, b: int| 0 <= a < b < e ==>
                !((#[trigger] edges@[a]).to == (#[trigger] edges@[b]).to && edges@[a].to_port@ == edges@[b].to_port@),
            forall|m: int| 0 <= m < e ==>
                !has_parameter(instance_with(nodes@, (#[trigger] edges@[m]).to).parameters@, edges@[m].to_port@),
        decreases edges.len() - e,
    {
        let edge = &edges[e];
        let mut path = prefix.to_owned();
        let here = index_path("edges", e);
        path.append(here.as_str());
        let mut s: usize = 0;
        while s < 2
            invariant
                e < edges.len(),
                *edge == edges@[e as int],
                s <= 2,
                s >= 1 ==> carried(nodes@, edges@[e as int].from),
                s >= 2 ==> carried(nodes@, edges@[e as int].to),
            decreases 2 - s,
        {
            let (uuid, end) = if s == 0 { (edge.from, "from") } else { (edge.to, "to") };
            if crate::instances::first_index(nodes, uuid).is_none() {
                let mut message = "the edge's `".to_owned();
                message.append(end);
                message.append("` node ");
                let id = uuid_text(uuid);
                message.append(id.as_str());
                message.append(" is not defined in ");
                message.append(scope);
                return Err(err(path.as_str(), message));
            }
            s = s + 1;
        }
        let landed = match crate::instances::instance_of(nodes, edge.to) {
            Some(landed) => landed,
            None => {
                return Err(err(path.as_str(), String::new()));
            },
        };
        let mut a: usize = 0;
        while a < e
            invariant
                a <= e,
                e < edges.len(),
                *edge == edges@[e as int],
                forall|m: int| 0 <= m < a ==> !((#[trigger] edges@[m]).to == edges@[e as int].to && edges@[m].to_port@ == edges@[e as int].to_port@),
            decreases e - a,
        {
            if edges[a].to == edge.to && same_text(edges[a].to_port.as_str(), edge.to_port.as_str()) {
                let mut message = "input `".to_owned();
                message.append(edge.to_port.as_str());
                message.append("` of node ");
                let name = landed.name(None);
                message.append(name.as_str());
                message.append(" receives more than one connection; ");
                message.append(prefix);
                let first = index_path("edges", a);
                message.append(first.as_str());
                message.append(" already feeds it");
                return Err(err(path.as_str(), message));
            }
            a = a + 1;
        }
        if contains_parameter(&landed.parameters, edge.to_port.as_str()) {
            let mut message = "input `".to_owned();
            message.append(edge.to_port.as_str());
            message.append("` of node ");
            let name = landed.name(None);
            message.append(name.as_str());
            message.append(" holds a parameter value and receives a connection; an input carries one or the other");
            return Err(err(path.as_str(), message));
        }
        e = e + 1;
    }
    Ok(())
}

fn group_port_fields() -> (names: Vec<&'static str>)
    ensures
        view_names(names@) == group_port_field_names(),
{
    vec!["name", "type_refs", "node", "port"]
}

fn load_group_port(value: &Yaml, path: &str) -> (loaded: Result<GroupPort, LoadError>)
    ensures
        forall|p: GroupPort| #[trigger] dumps_group_port(*value, p) ==> (loaded matches Ok(l) && reads_group_port(p, l)),
{
    let allowed = group_port_fields();
    let entries = fields(value, path, &allowed)?;
    let at = field_path(path, "type_refs");
    let typed = required(entries, "type_refs", path)?;
    let listed = as_sequence(typed, at.as_str())?;
    let mut type_refs: Vec<String> = Vec::new();
    let mut i: usize = 0;
    assert(forall|p: GroupPort| #[trigger] dumps_group_port(*value, p) ==> crate::document::dumps_texts(*typed, p.type_refs@));
    while i < listed.len()
        invariant
            forall|p: GroupPort| #[trigger] dumps_group_port(*value, p) ==> crate::document::dumps_texts(*typed, p.type_refs@),
            *typed == Yaml::Sequence(*listed),
            i <= listed@.len(),
            type_refs@.len() == i,
            forall|ts: Seq<String>| #[trigger] crate::document::dumps_texts(*typed, ts) ==> forall|j: int| 0 <= j < i
                ==> (#[trigger] ts[j])@ == type_refs@[j]@,
        decreases listed.len() - i,
    {
        let item_path = index_path(at.as_str(), i);
        type_refs.push(as_text(&listed[i], item_path.as_str())?.clone());
        i = i + 1;
    }
    let at = field_path(path, "name");
    let name = as_text(required(entries, "name", path)?, at.as_str())?.clone();
    let at = field_path(path, "node");
    let node = load_uuid(required(entries, "node", path)?, at.as_str())?;
    let at = field_path(path, "port");
    let port = as_text(required(entries, "port", path)?, at.as_str())?.clone();
    Ok(GroupPort { name, type_refs, node, port })
}

fn load_group_ports(value: &Yaml, path: &str) -> (loaded: Result<Vec<GroupPort>, LoadError>)
    ensures
        loaded matches Ok(ports) ==> distinct_port_names(ports@),
        forall|ps: Seq<GroupPort>| #[trigger] dumps_group_ports(*value, ps) && distinct_port_names(ps)
            ==> (loaded matches Ok(l) && reads_group_ports(ps, l@)),
{
    let items = as_sequence(value, path)?;
    let mut ports: Vec<GroupPort> = Vec::new();
    let mut i: usize = 0;
    while i < items.len()
        invariant
            *value == Yaml::Sequence(*items),
            i <= items@.len(),
            ports@.len() == i,
            distinct_port_names(ports@),
            forall|ps: Seq<GroupPort>| #[trigger] dumps_group_ports(*value, ps) ==> forall|j: int| 0 <= j < i
                ==> reads_group_port(#[trigger] ps[j], ports@[j]),
        decreases items.len() - i,
    {
        let at = index_path(path, i);
        let port = load_group_port(&items[i], at.as_str())?;
        let mut j: usize = 0;
        while j < ports.len()
            invariant
                *value == Yaml::Sequence(*items),
                i < items@.len(),
                ports@.len() == i,
                j <= ports.len(),
                forall|m: int| 0 <= m < j ==> (#[trigger] ports@[m]).name@ != port.name@,
                forall|ps: Seq<GroupPort>| #[trigger] dumps_group_ports(*value, ps) ==> forall|m: int| 0 <= m < i
                    ==> reads_group_port(#[trigger] ps[m], ports@[m]),
                forall|p: GroupPort| #[trigger] dumps_group_port(items@[i as int], p) ==> reads_group_port(p, port),
            decreases ports.len() - j,
        {
            if same_text(ports[j].name.as_str(), port.name.as_str()) {
                proof {
                    assert forall|ps: Seq<GroupPort>| #[trigger] dumps_group_ports(*value, ps) implies !distinct_port_names(ps) by {
                        assert(reads_group_port(ps[j as int], ports@[j as int]));
                        assert(dumps_group_port(items@[i as int], ps[i as int]));
                    }
                }
                let mut message = "duplicate port name `".to_owned();
                message.append(port.name.as_str());
                message.append("`");
                return Err(err(at.as_str(), message));
            }
            j = j + 1;
        }
        let ghost before = ports@;
        ports.push(port);
        proof {
            assert forall|a: int, b: int| 0 <= a < b < ports@.len() implies (#[trigger] ports@[a]).name@ != (#[trigger] ports@[b]).name@ by {
                if b < before.len() {
                    assert(ports@[a] == before[a] && ports@[b] == before[b]);
                } else {
                    assert(ports@[a] == before[a]);
                }
            }
        }
        i = i + 1;
    }
    Ok(ports)
}

/// No two exposed ports of one side share a name.
pub open spec fn distinct_port_names(ports: Seq<GroupPort>) -> bool {
    forall|a: int, b: int| 0 <= a < b < ports.len() ==> (#[trigger] ports[a]).name@ != (#[trigger] ports[b]).name@
}

/// Every exposed port of a group binds one of the group's own nodes.
pub open spec fn bindings_inside(group: GroupDefinition) -> bool {
    &&& forall|b: int| 0 <= b < group.inputs@.len() ==> carried(group.nodes@, (#[trigger] group.inputs@[b]).node)
    &&& forall|b: int| 0 <= b < group.outputs@.len() ==> carried(group.nodes@, (#[trigger] group.outputs@[b]).node)
}

fn group_fields() -> (names: Vec<&'static str>)
    ensures
        view_names(names@) == group_field_names(),
{
    vec!["name", "inputs", "outputs", "nodes", "edges"]
}

fn check_bindings(ports: &Vec<GroupPort>, nodes: &Vec<NodeInstance>, path: &str, field: &str, side: &str) -> (checked: Result<(), LoadError>)
    ensures
        checked is Ok <==> forall|b: int| 0 <= b < ports@.len() ==> carried(nodes@, (#[trigger] ports@[b]).node),
{
    let mut b: usize = 0;
    while b < ports.len()
        invariant
            b <= ports.len(),
            forall|m: int| 0 <= m < b ==> carried(nodes@, (#[trigger] ports@[m]).node),
        decreases ports.len() - b,
    {
        if crate::instances::first_index(nodes, ports[b].node).is_none() {
            let mut message = "the exposed ".to_owned();
            message.append(side);
            message.append(" port `");
            message.append(ports[b].name.as_str());
            message.append("` binds node ");
            let id = uuid_text(ports[b].node);
            message.append(id.as_str());
            message.append(", which the group does not contain");
            let at = field_path(path, field);
            let at = index_path(at.as_str(), b);
            return Err(err(at.as_str(), message));
        }
        b = b + 1;
    }
    Ok(())
}

fn load_group(group: &Yaml, index: usize) -> (loaded: Result<GroupDefinition, LoadError>)
    ensures
        loaded matches Ok(g) ==> loadable_group(g),
        forall|g0: GroupDefinition| #[trigger] dumps_group(*group, g0) && loadable_group(g0)
            ==> (loaded matches Ok(l) && reads_group(g0, l)),
{
    let path = index_path("groups", index);
    let allowed = group_fields();
    let entries = fields(group, path.as_str(), &allowed)?;
    let at = field_path(path.as_str(), "name");
    let name = as_text(required(entries, "name", path.as_str())?, at.as_str())?.clone();
    let at = field_path(path.as_str(), "inputs");
    let inputs = load_group_ports(required(entries, "inputs", path.as_str())?, at.as_str())?;
    let at = field_path(path.as_str(), "outputs");
    let outputs = load_group_ports(required(entries, "outputs", path.as_str())?, at.as_str())?;
    let at = field_path(path.as_str(), "nodes");
    let nodes = load_nodes(required(entries, "nodes", path.as_str())?, at.as_str())?;
    let at = field_path(path.as_str(), "edges");
    let edges = load_edges(required(entries, "edges", path.as_str())?, at.as_str())?;
    proof {
        assert forall|g0: GroupDefinition| #[trigger] dumps_group(*group, g0) && loadable_group(g0) implies {
            &&& reads_group_ports(g0.inputs@, inputs@)
            &&& reads_group_ports(g0.outputs@, outputs@)
            &&& reads_nodes(g0.nodes@, nodes@)
            &&& reads_edges(g0.edges@, edges@)
            &&& (forall|b: int| 0 <= b < inputs@.len() ==> carried(nodes@, (#[trigger] inputs@[b]).node))
            &&& (forall|b: int| 0 <= b < outputs@.len() ==> carried(nodes@, (#[trigger] outputs@[b]).node))
            &&& graph_consistent(nodes@, edges@)
        } by {
            assert forall|b: int| 0 <= b < inputs@.len() implies carried(nodes@, (#[trigger] inputs@[b]).node) by {
                assert(reads_group_port(g0.inputs@[b], inputs@[b]));
                lemma_carried_read_back(g0.nodes@, nodes@, inputs@[b].node);
            }
            assert forall|b: int| 0 <= b < outputs@.len() implies carried(nodes@, (#[trigger] outputs@[b]).node) by {
                assert(reads_group_port(g0.outputs@[b], outputs@[b]));
                lemma_carried_read_back(g0.nodes@, nodes@, outputs@[b].node);
            }
            lemma_consistent_read_back(g0.nodes@, g0.edges@, nodes@, edges@);
        }
    }
    check_bindings(&inputs, &nodes, path.as_str(), "inputs", "input")?;
    check_bindings(&outputs, &nodes, path.as_str(), "outputs", "output")?;
    let mut prefix = path.clone();
    prefix.append(".");
    let mut scope = "group `".to_owned();
    scope.append(name.as_str());
    scope.append("`");
    cross_check(prefix.as_str(), scope.as_str(), &nodes, &edges)?;
    Ok(GroupDefinition { name, inputs, outputs, nodes, edges })
}

/// A node list read back carries the uuids the written one did.
proof fn lemma_carried_read_back(a: Seq<NodeInstance>, b: Seq<NodeInstance>, uuid: u128)
    requires
        reads_nodes(a, b),
        carried(a, uuid),
    ensures
        carried(b, uuid),
{
    let k = choose|k: int| 0 <= k < a.len() && #[trigger] a[k].uuid == uuid;
    assert(reads_node(a[k], b[k]));
    assert(b[k].uuid == uuid);
}

/// A graph read back is as consistent as the one written.
proof fn lemma_consistent_read_back(a: Seq<NodeInstance>, ae: Seq<Edge>, b: Seq<NodeInstance>, be: Seq<Edge>)
    requires
        reads_nodes(a, b),
        reads_edges(ae, be),
        graph_consistent(a, ae),
    ensures
        graph_consistent(b, be),
{
    assert forall|i: int, j: int| 0 <= i < j < b.len() implies (#[trigger] b[i]).uuid != (#[trigger] b[j]).uuid by {
        assert(reads_node(a[i], b[i]));
        assert(reads_node(a[j], b[j]));
        assert(a[i].uuid != a[j].uuid);
    }
    assert forall|e: int| 0 <= e < be.len() implies carried(b, (#[trigger] be[e]).from) && carried(b, be[e].to) by {
        assert(reads_edge(ae[e], be[e]));
        lemma_carried_read_back(a, b, be[e].from);
        lemma_carried_read_back(a, b, be[e].to);
    }
    assert forall|x: int, y: int| 0 <= x < y < be.len() implies
        !((#[trigger] be[x]).to == (#[trigger] be[y]).to && be[x].to_port@ == be[y].to_port@) by {
        assert(reads_edge(ae[x], be[x]));
        assert(reads_edge(ae[y], be[y]));
        assert(!(ae[x].to == ae[y].to && ae[x].to_port@ == ae[y].to_port@));
    }
    assert forall|e: int| 0 <= e < be.len() implies
        !has_parameter(instance_with(b, (#[trigger] be[e]).to).parameters@, be[e].to_port@) by {
        assert(reads_edge(ae[e], be[e]));
        let uuid = ae[e].to;
        assert(carried(a, uuid));
        let k0 = choose|k: int| 0 <= k < a.len() && #[trigger] a[k].uuid == uuid;
        crate::instances::lemma_carried(a, uuid, k0);
        let k = choose|k: int| crate::instances::first_with(a, uuid, k);
        assert(crate::instances::first_with(a, uuid, k));
        assert forall|j: int| 0 <= j < k implies #[trigger] b[j].uuid != uuid by {
            assert(reads_node(a[j], b[j]));
            assert(a[j].uuid != uuid);
        }
        assert(reads_node(a[k], b[k]));
        assert(crate::instances::first_with(b, uuid, k));
        crate::instances::lemma_first_with(a, uuid, k);
        crate::instances::lemma_first_with(b, uuid, k);
        assert(!has_parameter(a[k].parameters@, ae[e].to_port@));
        if has_parameter(b[k].parameters@, be[e].to_port@) {
            let p = choose|p: int| 0 <= p < b[k].parameters@.len() && #[trigger] b[k].parameters@[p].0@ == be[e].to_port@;
            assert(a[k].parameters@[p].0@ == b[k].parameters@[p].0@);
        }
    }
}

/// What a group must be to load: the exposed ports of each side named
/// apart, each binding one of the group's nodes, and its node and edge
/// lists agreeing.
pub open spec fn loadable_group(g: GroupDefinition) -> bool {
    &&& distinct_port_names(g.inputs@)
    &&& distinct_port_names(g.outputs@)
    &&& bindings_inside(g)
    &&& graph_consistent(g.nodes@, g.edges@)
}

/// What a graph definition must be to load: the current schema version,
/// the top level's node and edge lists agreeing, group names unique, and
/// every group loadable — everything the loader checks of what it reads.
pub open spec fn loadable(g: GraphDefinition) -> bool {
    &&& g.schema_version == SCHEMA_VERSION
    &&& graph_consistent(g.nodes@, g.edges@)
    &&& forall|a: int, b: int| 0 <= a < b < g.groups@.len() ==> (#[trigger] g.groups@[a]).name@ != (#[trigger] g.groups@[b]).name@
    &&& forall|k: int| 0 <= k < g.groups@.len() ==> loadable_group(#[trigger] g.groups@[k])
}

/// A document's groups: each loaded, each name unique in the document.
fn load_groups(value: &Yaml) -> (loaded: Result<Vec<GroupDefinition>, LoadError>)
    ensures
        loaded matches Ok(groups) ==> {
            &&& forall|a: int, b: int| 0 <= a < b < groups@.len() ==> (#[trigger] groups@[a]).name@ != (#[trigger] groups@[b]).name@
            &&& forall|g: int| 0 <= g < groups@.len() ==> loadable_group(#[trigger] groups@[g])
        },
        forall|gs: Seq<GroupDefinition>| #[trigger] crate::document::dumps_groups(*value, gs) && groups_loadable(gs)
            ==> (loaded matches Ok(l) && l@.len() == gs.len() && forall|k: int| 0 <= k < gs.len() ==> reads_group(#[trigger] gs[k], l@[k])),
{
    let items = as_sequence(value, "groups")?;
    let mut groups: Vec<GroupDefinition> = Vec::new();
    let mut i: usize = 0;
    while i < items.len()
        invariant
            *value == Yaml::Sequence(*items),
            i <= items@.len(),
            groups@.len() == i,
            forall|a: int, b: int| 0 <= a < b < groups@.len() ==> (#[trigger] groups@[a]).name@ != (#[trigger] groups@[b]).name@,
            forall|g: int| 0 <= g < groups@.len() ==> loadable_group(#[trigger] groups@[g]),
            forall|gs: Seq<GroupDefinition>| #[trigger] crate::document::dumps_groups(*value, gs) && groups_loadable(gs)
                ==> forall|k: int| 0 <= k < i ==> reads_group(#[trigger] gs[k], groups@[k]),
        decreases items.len() - i,
    {
        let group = load_group(&items[i], i)?;
        let mut j: usize = 0;
        while j < groups.len()
            invariant
                *value == Yaml::Sequence(*items),
                i < items@.len(),
                groups@.len() == i,
                j <= groups.len(),
                forall|m: int| 0 <= m < j ==> (#[trigger] groups@[m]).name@ != group.name@,
                forall|gs: Seq<GroupDefinition>| #[trigger] crate::document::dumps_groups(*value, gs) && groups_loadable(gs)
                    ==> forall|k: int| 0 <= k < i ==> reads_group(#[trigger] gs[k], groups@[k]),
                forall|g0: GroupDefinition| #[trigger] dumps_group(items@[i as int], g0) && loadable_group(g0)
                    ==> reads_group(g0, group),
            decreases groups.len() - j,
        {
            if same_text(groups[j].name.as_str(), group.name.as_str()) {
                proof {
                    assert forall|gs: Seq<GroupDefinition>| #[trigger] crate::document::dumps_groups(*value, gs)
                        implies !groups_loadable(gs) by {
                        if groups_loadable(gs) {
                            assert(reads_group(gs[j as int], groups@[j as int]));
                            assert(dumps_group(items@[i as int], gs[i as int]));
                            assert(loadable_group(gs[i as int]));
                            assert(gs[j as int].name@ != gs[i as int].name@);
                        }
                    }
                }
                let mut message = "duplicate group name `".to_owned();
                message.append(group.name.as_str());
                message.append("`");
                let at = index_path("groups", i);
                return Err(err(at.as_str(), message));
            }
            j = j + 1;
        }
        let ghost before = groups@;
        groups.push(group);
        proof {
            assert forall|a: int, b: int| 0 <= a < b < groups@.len() implies (#[trigger] groups@[a]).name@ != (#[trigger] groups@[b]).name@ by {
                if b < before.len() {
                    assert(groups@[a] == before[a] && groups@[b] == before[b]);
                } else {
                    assert(groups@[a] == before[a]);
                }
            }
            assert forall|g: int| 0 <= g < groups@.len() implies loadable_group(#[trigger] groups@[g]) by {
                if g < before.len() {
                    assert(groups@[g] == before[g]);
                }
            }
            assert forall|gs: Seq<GroupDefinition>| #[trigger] crate::document::dumps_groups(*value, gs) && groups_loadable(gs)
                implies forall|k: int| 0 <= k < i + 1 ==> reads_group(#[trigger] gs[k], groups@[k]) by {
                assert forall|k: int| 0 <= k < i + 1 implies reads_group(#[trigger] gs[k], groups@[k]) by {
                    if k < i {
                        assert(groups@[k] == before[k]);
                    } else {
                        assert(dumps_group(items@[i as int], gs[i as int]));
                        assert(loadable_group(gs[i as int]));
                    }
                }
            }
        }
        i = i + 1;
    }
    Ok(groups)
}

/// A list of groups as loadable as a document's: names unique, each group
/// loadable.
pub open spec fn groups_loadable(gs: Seq<GroupDefinition>) -> bool {
    &&& forall|a: int, b: int| 0 <= a < b < gs.len() ==> (#[trigger] gs[a]).name@ != (#[trigger] gs[b]).name@
    &&& forall|k: int| 0 <= k < gs.len() ==> loadable_group(#[trigger] gs[k])
}

/// The schema version a document with only known top-level fields holds,
/// where the reader does not understand it.
pub open spec fn schema_version_refused(root: Yaml) -> Option<Yaml> {
    match root {
        Yaml::Mapping(es) => if keys_among(es@, document_field_names()) {
            match lookup(es@, "schema_version"@) {
                Some(v) => match v {
                    Yaml::Number(YamlNumber::PosInt(n)) => if supported_version(n) { None } else { Some(v) },
                    _ => Some(v),
                },
                None => None,
            }
        } else {
            None
        },
        _ => None,
    }
}

/// The text with every occurrence of `pattern`, left to right and not
/// overlapping, taken out.
pub open spec fn removed(text: Seq<char>, pattern: Seq<char>) -> Seq<char>
    decreases text.len(),
{
    if pattern.len() == 0 || text.len() == 0 {
        text
    } else if pattern.len() <= text.len() && text.subrange(0, pattern.len() as int) == pattern {
        removed(text.subrange(pattern.len() as int, text.len() as int), pattern)
    } else {
        seq![text[0]] + removed(text.drop_first(), pattern)
    }
}

/// Whether `pattern` sits in `text` at `at`.
fn sits_at(text: &str, pattern: &str, at: usize) -> (found: bool)
    requires
        at + pattern@.len() <= text@.len(),
    ensures
        found == (text@.subrange(at as int, at + pattern@.len()) == pattern@),
{
    let m = pattern.unicode_len();
    let n = text.unicode_len();
    let mut k: usize = 0;
    while k < m
        invariant
            k <= m,
            m == pattern@.len(),
            n == text@.len(),
            at + m <= text@.len(),
            forall|j: int| 0 <= j < k ==> text@[at + j] == pattern@[j],
        decreases m - k,
    {
        if text.get_char(at + k) != pattern.get_char(k) {
            assert(text@.subrange(at as int, at + m)[k as int] != pattern@[k as int]);
            return false;
        }
        k = k + 1;
    }
    assert(text@.subrange(at as int, at + m) =~= pattern@);
    true
}

/// The text with every occurrence of a non-empty pattern taken out.
fn without(text: &str, pattern: &str) -> (out: String)
    requires
        pattern@.len() > 0,
    ensures
        out@ == removed(text@, pattern@),
{
    let n = text.unicode_len();
    let m = pattern.unicode_len();
    let mut out = String::new();
    let mut i: usize = 0;
    assert(text@.subrange(0, n as int) =~= text@);
    while i < n
        invariant
            i <= n,
            n == text@.len(),
            m == pattern@.len(),
            m > 0,
            out@ + removed(text@.subrange(i as int, n as int), pattern@) == removed(text@, pattern@),
        decreases n - i,
    {
        let ghost rest = text@.subrange(i as int, n as int);
        if m <= n - i && sits_at(text, pattern, i) {
            assert(rest.subrange(0, m as int) =~= text@.subrange(i as int, i + m));
            assert(rest.subrange(m as int, rest.len() as int) =~= text@.subrange(i + m, n as int));
            i = i + m;
        } else {
            proof {
                if m <= n - i {
                    assert(rest.subrange(0, m as int) =~= text@.subrange(i as int, i + m));
                }
                assert(rest.drop_first() =~= text@.subrange(i + 1, n as int));
            }
            let ghost before = out@;
            out.push(text.get_char(i));
            assert(out@ + removed(text@.subrange(i + 1, n as int), pattern@)
                =~= before + (seq![rest[0]] + removed(rest.drop_first(), pattern@)));
            i = i + 1;
        }
    }
    assert(text@.subrange(n as int, n as int).len() == 0);
    assert(out@ + Seq::<char>::empty() =~= out@);
    out
}

/// The error of text that is no YAML: at the parser's line and column, when
/// it gives them, its message without the " at line L column C" it carries;
/// else at the document, the message as it stands.
pub fn parse_failure(message: &str, position: Option<(u64, u64)>) -> (e: LoadError)
    ensures
        match position {
            Some((line, column)) => {
                &&& e.location == LoadLocation::Position { line, column }
                &&& e.message@ == removed(message@, " at line "@ + crate::text::decimal(line as nat) + " column "@
                    + crate::text::decimal(column as nat))
            },
            None => {
                &&& e.location matches LoadLocation::Path(p) && p@ == "document"@
                &&& e.message@ == message@
            },
        },
{
    match position {
        Some((line, column)) => {
            let mut at = " at line ".to_owned();
            let shown = decimal_text(line as u128);
            at.append(shown.as_str());
            at.append(" column ");
            let shown = decimal_text(column as u128);
            at.append(shown.as_str());
            proof {
                reveal_strlit(" at line ");
            }
            let text = without(message, at.as_str());
            LoadError { location: LoadLocation::Position { line, column }, message: text }
        },
        None => LoadError { location: LoadLocation::Path("document".to_owned()), message: message.to_owned() },
    }
}

/// The name a document tree gives, where it gives one as text.
pub open spec fn document_name(root: Yaml) -> Option<String> {
    match root {
        Yaml::Mapping(es) => match lookup(es@, "name"@) {
            Some(Yaml::Text(t)) => Some(t),
            _ => None,
        },
        _ => None,
    }
}

/// A document tree whose header loads: a mapping of known fields, a
/// supported schema version, and groups only from version 2 on.
pub open spec fn header_accepted(root: Yaml) -> bool {
    match root {
        Yaml::Mapping(es) => {
            &&& keys_among(es@, document_field_names())
            &&& match lookup(es@, "schema_version"@) {
                Some(Yaml::Number(YamlNumber::PosInt(v))) => supported_version(v) && (v == 1 ==> lookup(es@, "groups"@) is None),
                _ => false,
            }
        },
        _ => false,
    }
}

/// The key of the document's first top-level entry no field takes.
pub open spec fn unknown_document_field(root: Yaml) -> Option<Seq<char>> {
    match root {
        Yaml::Mapping(es) => if first_unknown(es@, document_field_names()) < es@.len() {
            Some(es@[first_unknown(es@, document_field_names())].key_text@)
        } else {
            None
        },
        _ => None,
    }
}

/// The load was refused at `path` with `message`.
pub open spec fn refused_at<T>(loaded: Result<T, LoadError>, path: Seq<char>, message: Seq<char>) -> bool {
    match loaded {
        Err(e) => e.message@ == message && match e.location {
            LoadLocation::Path(p) => p@ == path,
            _ => false,
        },
        Ok(_) => false,
    }
}

fn document_fields() -> (names: Vec<&'static str>)
    ensures
        view_names(names@) == document_field_names(),
{
    vec!["schema_version", "name", "nodes", "edges", "groups"]
}

/// Load a graph definition from the YAML tree of a graph file. What loads
/// is loadable: the top level's and each group's node and edge lists
/// agree, group names are unique, each side's exposed port names are
/// unique, and every exposed port binds a node of its group. Whatever
/// version was read, the definition carries the current one. And what one
/// tool writes another reads back unchanged: the tree a loadable
/// definition is dumped to loads as that definition.
pub fn load_document(root: &Yaml) -> (loaded: Result<GraphDefinition, LoadError>)
    ensures
        loaded matches Ok(g) ==> loadable(g),
        schema_version_refused(*root) is Some
            ==> refused_at(loaded, "schema_version"@, schema_version_problem(schema_version_refused(*root)->0)),
        unknown_document_field(*root) is Some ==> refused_at(loaded, "document"@ + "."@ + unknown_document_field(*root)->0,
            unknown_field_text(unknown_document_field(*root)->0, document_field_names())),
        forall|g0: GraphDefinition| #[trigger] dumps_document(*root, g0) && loadable(g0)
            ==> (loaded matches Ok(g) && reads_document(g0, g)),
        loaded is Ok ==> header_accepted(*root),
        loaded matches Ok(g) ==> g.name == document_name(*root),
{
    let allowed = document_fields();
    let entries = match fields(root, "document", &allowed) {
        Ok(entries) => entries,
        Err(e) => return Err(e),
    };
    let schema_version = match check_schema_version(required(entries, "schema_version", "document")?) {
        Ok(version) => version,
        Err(e) => return Err(e),
    };
    let name = match get(entries, "name") {
        Some(value) => Some(as_text(value, "name")?.clone()),
        None => None,
    };
    let nodes = load_nodes(required(entries, "nodes", "document")?, "nodes")?;
    let edges = load_edges(required(entries, "edges", "document")?, "edges")?;
    let groups = match get(entries, "groups") {
        Some(value) => {
            if schema_version == 1 {
                let mut message = "a version 1 document carries a `groups` section; groups arrived with version ".to_owned();
                let newest = decimal_text(SCHEMA_VERSION as u128);
                message.append(newest.as_str());
                return Err(err("schema_version", message));
            }
            load_groups(value)?
        },
        None => Vec::new(),
    };
    proof {
        assert forall|g0: GraphDefinition| #[trigger] dumps_document(*root, g0) && loadable(g0)
            implies graph_consistent(nodes@, edges@) by {
            lemma_consistent_read_back(g0.nodes@, g0.edges@, nodes@, edges@);
        }
    }
    cross_check("", "the file", &nodes, &edges)?;
    Ok(GraphDefinition { schema_version: SCHEMA_VERSION, name, nodes, edges, groups })
}

} // verus!
