//! The graph definition model: exactly what a graph file carries — the
//! schema version, an optional name, the node instances, the edges between
//! them, and the groups they may instantiate — and the YAML value tree the
//! file is read from.

use vstd::prelude::*;

verus! {

/// The schema version this reader writes: the newest it understands.
pub const SCHEMA_VERSION: u64 = 2;

/// A YAML number, in the three shapes a YAML reader distinguishes: a
/// non-negative integer, a negative integer, and a float.
pub enum YamlNumber {
    PosInt(u64),
    NegInt(i64),
    Float(FloatLiteral),
}

/// A YAML value: the tree a graph file is read from, and the shape node
/// metadata is carried in.
pub enum Yaml {
    Null,
    Bool(bool),
    Number(YamlNumber),
    Text(String),
    Sequence(Vec<Yaml>),
    Mapping(Vec<YamlEntry>),
    Tagged(String, Box<Yaml>),
}

/// Two YAML numbers are the same: the same shape and payload, a float by
/// its bits and texts.
pub open spec fn same_number(a: YamlNumber, b: YamlNumber) -> bool {
    match (a, b) {
        (YamlNumber::PosInt(x), YamlNumber::PosInt(y)) => x == y,
        (YamlNumber::NegInt(x), YamlNumber::NegInt(y)) => x == y,
        (YamlNumber::Float(x), YamlNumber::Float(y)) => x.bits == y.bits && x.narrowed == y.narrowed
            && x.text@ == y.text@ && x.number_text@ == y.number_text@,
        _ => false,
    }
}

/// Two YAML values are the same tree: the same shape at every node, the
/// same scalars, the same texts.
pub open spec fn same_yaml(a: Yaml, b: Yaml) -> bool
    decreases a,
{
    match a {
        Yaml::Null => b is Null,
        Yaml::Bool(x) => b matches Yaml::Bool(y) && x == y,
        Yaml::Number(x) => b matches Yaml::Number(y) && same_number(x, y),
        Yaml::Text(x) => b matches Yaml::Text(y) && x@ == y@,
        Yaml::Sequence(xs) => b matches Yaml::Sequence(ys) && xs@.len() == ys@.len()
            && forall|i: int| 0 <= i < xs@.len() ==> same_yaml(#[trigger] xs@[i], ys@[i]),
        Yaml::Mapping(xs) => b matches Yaml::Mapping(ys) && xs@.len() == ys@.len()
            && forall|i: int| 0 <= i < xs@.len() ==> {
                &&& same_yaml((#[trigger] xs@[i]).key, ys@[i].key)
                &&& xs@[i].key_text@ == ys@[i].key_text@
                &&& same_yaml(xs@[i].value, ys@[i].value)
            },
        Yaml::Tagged(t, x) => b matches Yaml::Tagged(u, y) && t@ == u@ && same_yaml(*x, *y),
    }
}

impl YamlNumber {
    pub fn copy(&self) -> (copy: YamlNumber)
        ensures
            same_number(copy, *self),
    {
        match self {
            YamlNumber::PosInt(v) => YamlNumber::PosInt(*v),
            YamlNumber::NegInt(v) => YamlNumber::NegInt(*v),
            YamlNumber::Float(f) => YamlNumber::Float(f.copy()),
        }
    }
}

impl Yaml {
    /// A deep copy of this value.
    pub fn copy(&self) -> (copy: Yaml)
        ensures
            same_yaml(*self, copy),
        decreases self,
    {
        match self {
            Yaml::Null => Yaml::Null,
            Yaml::Bool(b) => {
                let copy = Yaml::Bool(*b);
                assert(same_yaml(*self, copy));
                copy
            },
            Yaml::Number(n) => {
                let copy = Yaml::Number(n.copy());
                assert(same_yaml(*self, copy));
                copy
            },
            Yaml::Text(t) => {
                let copy = Yaml::Text(t.clone());
                assert(same_yaml(*self, copy));
                copy
            },
            Yaml::Sequence(items) => {
                let mut out: Vec<Yaml> = Vec::new();
                let mut i: usize = 0;
                while i < items.len()
                    invariant
                        i <= items.len(),
                        *self == Yaml::Sequence(*items),
                        out@.len() == i,
                        forall|j: int| 0 <= j < i ==> same_yaml(#[trigger] items@[j], out@[j]),
                    decreases items.len() - i,
                {
                    assert(decreases_to!(*self => (*self)->Sequence_0));
                    assert(decreases_to!(*items => items@));
                    assert(decreases_to!(items@ => items@[i as int]));
                    out.push(items[i].copy());
                    i = i + 1;
                }
                let copy = Yaml::Sequence(out);
                assert(copy->Sequence_0@.len() == items@.len());
                assert(forall|j: int| 0 <= j < items@.len() ==> same_yaml(#[trigger] items@[j], copy->Sequence_0@[j]));
                assert(same_yaml(*self, copy));
                copy
            },
            Yaml::Mapping(entries) => {
                let mut out: Vec<YamlEntry> = Vec::new();
                let mut i: usize = 0;
                while i < entries.len()
                    invariant
                        i <= entries.len(),
                        *self == Yaml::Mapping(*entries),
                        out@.len() == i,
                        forall|j: int| 0 <= j < i ==> {
                            &&& same_yaml((#[trigger] entries@[j]).key, out@[j].key)
                            &&& entries@[j].key_text@ == out@[j].key_text@
                            &&& same_yaml(entries@[j].value, out@[j].value)
                        },
                    decreases entries.len() - i,
                {
                    assert(decreases_to!(*self => (*self)->Mapping_0));
                    assert(decreases_to!(*entries => entries@));
                    assert(decreases_to!(entries@ => entries@[i as int]));
                    assert(decreases_to!(entries@[i as int] => entries@[i as int].key));
                    assert(decreases_to!(entries@[i as int] => entries@[i as int].value));
                    let key = entries[i].key.copy();
                    let value = entries[i].value.copy();
                    out.push(YamlEntry { key, key_text: entries[i].key_text.clone(), value });
                    i = i + 1;
                }
                assert(same_yaml(*self, Yaml::Mapping(out)));
                Yaml::Mapping(out)
            },
            Yaml::Tagged(tag, inner) => {
                let copy = Yaml::Tagged(tag.clone(), Box::new((**inner).copy()));
                assert(same_yaml(*self, copy));
                copy
            },
        }
    }
}

/// One entry of a YAML mapping: the key, the key as a message shows it —
/// a string key as written, any other key in its YAML form, as the reader
/// rendered it — and the value.
pub struct YamlEntry {
    pub key: Yaml,
    pub key_text: String,
    pub value: Yaml,
}

/// A float literal: its IEEE 754 bits, the bits of its nearest `f32`
/// when that narrowing is finite, the text a parameter message shows it as
/// (a decimal point or exponent always present, so a float never reads as
/// an integer), and the text the YAML number itself displays as — the
/// narrowing and both texts being the reader's, made where the float was
/// read.
pub struct FloatLiteral {
    pub bits: u64,
    pub narrowed: Option<u32>,
    pub text: String,
    pub number_text: String,
}

impl FloatLiteral {
    pub fn copy(&self) -> (copy: FloatLiteral)
        ensures
            copy.bits == self.bits,
            copy.narrowed == self.narrowed,
            copy.text@ == self.text@,
            copy.number_text@ == self.number_text@,
    {
        FloatLiteral { bits: self.bits, narrowed: self.narrowed, text: self.text.clone(), number_text: self.number_text.clone() }
    }
}

/// A parameter value: a plain YAML scalar of one of the four kinds.
pub enum ParameterValue {
    Bool(bool),
    Int(i64),
    Float(FloatLiteral),
    Str(String),
}

/// Whether the bits encode a NaN.
pub open spec fn is_nan_bits(bits: u64) -> bool {
    (bits & 0x7ff0_0000_0000_0000u64) == 0x7ff0_0000_0000_0000u64 && (bits & 0x000f_ffff_ffff_ffffu64) != 0
}

/// Float equality as the round trip reads it: the same number — the two
/// zeros being one number — or both NaN.
pub open spec fn same_float(a: u64, b: u64) -> bool {
    if is_nan_bits(a) || is_nan_bits(b) {
        is_nan_bits(a) && is_nan_bits(b)
    } else {
        a == b || ((a & 0x7fff_ffff_ffff_ffffu64) == 0 && (b & 0x7fff_ffff_ffff_ffffu64) == 0)
    }
}

/// Two parameter values are equal when they carry the same kind and the
/// same meaning.
pub open spec fn same_parameter(a: ParameterValue, b: ParameterValue) -> bool {
    match (a, b) {
        (ParameterValue::Bool(x), ParameterValue::Bool(y)) => x == y,
        (ParameterValue::Int(x), ParameterValue::Int(y)) => x == y,
        (ParameterValue::Float(x), ParameterValue::Float(y)) => same_float(x.bits, y.bits),
        (ParameterValue::Str(x), ParameterValue::Str(y)) => x@ == y@,
        _ => false,
    }
}

fn nan_bits(bits: u64) -> (nan: bool)
    ensures
        nan == is_nan_bits(bits),
{
    (bits & 0x7ff0_0000_0000_0000u64) == 0x7ff0_0000_0000_0000u64 && (bits & 0x000f_ffff_ffff_ffffu64) != 0
}

impl PartialEq for ParameterValue {
    fn eq(&self, other: &Self) -> (equal: bool) {
        match (self, other) {
            (ParameterValue::Float(a), ParameterValue::Float(b)) => {
                if nan_bits(a.bits) || nan_bits(b.bits) {
                    nan_bits(a.bits) && nan_bits(b.bits)
                } else {
                    a.bits == b.bits || ((a.bits & 0x7fff_ffff_ffff_ffffu64) == 0 && (b.bits
                        & 0x7fff_ffff_ffff_ffffu64) == 0)
                }
            },
            (ParameterValue::Bool(a), ParameterValue::Bool(b)) => *a == *b,
            (ParameterValue::Int(a), ParameterValue::Int(b)) => *a == *b,
            (ParameterValue::Str(a), ParameterValue::Str(b)) => *a == *b,
            _ => false,
        }
    }
}

impl vstd::std_specs::cmp::PartialEqSpecImpl for ParameterValue {
    open spec fn obeys_eq_spec() -> bool {
        true
    }

    open spec fn eq_spec(&self, other: &ParameterValue) -> bool {
        same_parameter(*self, *other)
    }
}

/// One node instance: its own uuid, the type reference of the node type it
/// instantiates, an optional label overriding the type's default, the
/// parameter values fixed for its inputs and choices, and its metadata.
pub struct NodeInstance {
    pub uuid: u128,
    pub type_ref: String,
    pub label: Option<String>,
    /// By name, each name once.
    pub parameters: Vec<(String, ParameterValue)>,
    /// Visual bookkeeping, carried verbatim; the engine never reads it.
    pub metadata: Vec<YamlEntry>,
}

/// An edge from one node's output port to another node's input port.
pub struct Edge {
    pub from: u128,
    pub from_port: String,
    pub to: u128,
    pub to_port: String,
}

/// One exposed port of a group, bound to the inner node and port it stands
/// in for.
pub struct GroupPort {
    pub name: String,
    pub type_refs: Vec<String>,
    pub node: u128,
    pub port: String,
}

/// A group: a named, reusable node type the document itself defines — a
/// nested graph packaged with exposed ports.
pub struct GroupDefinition {
    pub name: String,
    pub inputs: Vec<GroupPort>,
    pub outputs: Vec<GroupPort>,
    pub nodes: Vec<NodeInstance>,
    pub edges: Vec<Edge>,
}

/// A graph definition, exactly as a file carries it.
pub struct GraphDefinition {
    pub schema_version: u64,
    pub name: Option<String>,
    pub nodes: Vec<NodeInstance>,
    pub edges: Vec<Edge>,
    pub groups: Vec<GroupDefinition>,
}

impl GraphDefinition {
    /// The graph a fresh editor starts from.
    pub fn empty() -> (graph: GraphDefinition)
        ensures
            graph.schema_version == SCHEMA_VERSION,
            graph.name is None,
            graph.nodes@.len() == 0,
            graph.edges@.len() == 0,
            graph.groups@.len() == 0,
    {
        GraphDefinition {
            schema_version: SCHEMA_VERSION,
            name: None,
            nodes: Vec::new(),
            edges: Vec::new(),
            groups: Vec::new(),
        }
    }
}

/// Whether the parameters carry a value under `name`.
pub open spec fn has_parameter(parameters: Seq<(String, ParameterValue)>, name: Seq<char>) -> bool {
    exists|i: int| 0 <= i < parameters.len() && #[trigger] parameters[i].0@ == name
}

/// Whether the parameters carry a value under `name`.
pub fn contains_parameter(parameters: &Vec<(String, ParameterValue)>, name: &str) -> (found: bool)
    ensures
        found == has_parameter(parameters@, name@),
{
    let mut i: usize = 0;
    while i < parameters.len()
        invariant
            i <= parameters.len(),
            forall|j: int| 0 <= j < i ==> parameters@[j].0@ != name@,
        decreases parameters.len() - i,
    {
        if crate::text::same_text(parameters[i].0.as_str(), name) {
            return true;
        }
        i = i + 1;
    }
    false
}

/// What a message calls a node: the instance's label, else the label of
/// the type it instantiates, else the type reference the file writes.
pub open spec fn node_name(instance: NodeInstance, type_label: Option<Seq<char>>) -> Seq<char> {
    match instance.label {
        Some(label) => label@,
        None => match type_label {
            Some(label) => label,
            None => instance.type_ref@,
        },
    }
}

impl NodeInstance {
    /// What a message calls this node: the instance's label, else the
    /// label of the type it instantiates, else the type reference.
    pub fn name(&self, type_label: Option<&String>) -> (name: String)
        ensures
            name@ == node_name(
                *self,
                match type_label {
                    Some(l) => Some(l@),
                    None => None,
                },
            ),
    {
        match &self.label {
            Some(label) => label.clone(),
            None => match type_label {
                Some(label) => label.clone(),
                None => self.type_ref.clone(),
            },
        }
    }
}

/// Two metadata lists are the same entries, in order.
pub open spec fn same_entries(a: Seq<YamlEntry>, b: Seq<YamlEntry>) -> bool {
    &&& a.len() == b.len()
    &&& forall|i: int| 0 <= i < a.len() ==> {
        &&& same_yaml((#[trigger] a[i]).key, b[i].key)
        &&& a[i].key_text@ == b[i].key_text@
        &&& same_yaml(a[i].value, b[i].value)
    }
}

/// A deep copy of a metadata list.
pub fn copy_metadata(entries: &Vec<YamlEntry>) -> (copy: Vec<YamlEntry>)
    ensures
        same_entries(entries@, copy@),
{
    let mut copy: Vec<YamlEntry> = Vec::new();
    let mut i: usize = 0;
    while i < entries.len()
        invariant
            i <= entries.len(),
            copy@.len() == i,
            forall|j: int| 0 <= j < i ==> {
                &&& same_yaml((#[trigger] entries@[j]).key, copy@[j].key)
                &&& entries@[j].key_text@ == copy@[j].key_text@
                &&& same_yaml(entries@[j].value, copy@[j].value)
            },
        decreases entries.len() - i,
    {
        copy.push(YamlEntry { key: entries[i].key.copy(), key_text: entries[i].key_text.clone(), value: entries[i].value.copy() });
        i = i + 1;
    }
    copy
}

/// Two node instances are the same: the same uuid, type, label and
/// parameters, and the same metadata entries.
pub open spec fn same_node(a: NodeInstance, b: NodeInstance) -> bool {
    &&& a.uuid == b.uuid
    &&& a.type_ref@ == b.type_ref@
    &&& a.label == b.label
    &&& a.parameters@ == b.parameters@
    &&& same_entries(a.metadata@, b.metadata@)
}

impl NodeInstance {
    /// A deep copy of this instance.
    pub fn copy(&self) -> (copy: NodeInstance)
        ensures
            same_node(*self, copy),
    {
        let mut parameters: Vec<(String, ParameterValue)> = Vec::new();
        let mut i: usize = 0;
        while i < self.parameters.len()
            invariant
                i <= self.parameters.len(),
                parameters@ == self.parameters@.subrange(0, i as int),
            decreases self.parameters.len() - i,
        {
            parameters.push((self.parameters[i].0.clone(), self.parameters[i].1.copy()));
            assert(parameters@ =~= self.parameters@.subrange(0, i + 1));
            i = i + 1;
        }
        assert(self.parameters@.subrange(0, self.parameters.len() as int) =~= self.parameters@);
        NodeInstance {
            uuid: self.uuid,
            type_ref: self.type_ref.clone(),
            label: match &self.label {
                Some(label) => Some(label.clone()),
                None => None,
            },
            parameters,
            metadata: copy_metadata(&self.metadata),
        }
    }
}

} // verus!
