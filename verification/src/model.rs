//! The node type and data type model: what a plugin declares, as pure data.
//!
//! A node type is identified by its type reference and declares typed ports
//! — each carrying one or more data type references, optionally as members
//! of a port family — and the choices each instance picks an option of. A
//! data type is identified by a stable id and a unique name, and may declare
//! conversions to other types. What a behaviour or a conversion *does* at
//! run time is the engine's business; the model records that it exists.

use vstd::prelude::*;
use crate::text::same_text;

verus! {

/// A node type's custom UI bundle, as the declaring plugin embeds it.
pub struct NodeUi {
    /// The component contract version the bundle was built against.
    pub contract: u64,
    /// The bundle's entry asset, plugin-namespaced.
    pub entry: String,
    /// The bundle's text.
    pub source: String,
}

/// One input or output port of a node type.
pub struct Port {
    pub name: String,
    /// The type references this port carries — one or more, as declared.
    pub type_refs: Vec<String>,
    /// The port family this port belongs to, if any: the ports of one
    /// family resolve to one concrete type per instance at compile time.
    pub family: Option<String>,
}

/// A named setting whose value is one of a fixed set of options.
pub struct Choice {
    pub name: String,
    /// The options the setting offers, in the order the editor lists them.
    pub options: Vec<String>,
}

/// A node type as a plugin declares it, identified by its type reference.
pub struct NodeType {
    /// Stable reference, unique across the linked plugins.
    pub type_ref: String,
    /// Default label shown in the palette and on nodes.
    pub label: String,
    /// Inline SVG markup for the node.
    pub icon: String,
    /// The plugin grouping this node type belongs to.
    pub plugin: String,
    /// Optional sub-grouping within the plugin.
    pub sub_group: Option<String>,
    /// Optional custom node UI.
    pub ui: Option<NodeUi>,
    /// Input ports, on the left of the node.
    pub inputs: Vec<Port>,
    /// Output ports, on the right of the node.
    pub outputs: Vec<Port>,
    /// The settings each instance chooses from a fixed set of options.
    pub choices: Vec<Choice>,
    /// Whether the type declares a behaviour; one declared without is a
    /// descriptor alone, which the compiler accepts and nothing runs.
    pub behaviour: bool,
    /// Whether the type declares a compile-time check of its instances.
    pub check_parameters: bool,
}

/// A conversion a data type declares: from the declaring type, to the
/// type named by `target`. The function performing it runs at run time.
#[derive(Clone, Copy, PartialEq, Eq, Debug)]
pub struct Conversion {
    /// The id of the declaring type, whose values the conversion takes.
    pub source: u128,
    /// The id of the type the conversion produces.
    pub target: u128,
}

/// A plain metadata value. A float is carried as its IEEE 754 bits.
pub enum MetaValue {
    Str(String),
    Int(i64),
    Float(u64),
    Bool(bool),
}

/// A data type's custom value UI bundle.
pub struct ValueUi {
    pub contract: u64,
    pub entry: String,
    pub source: String,
}

/// A data type, identified by a stable id and a unique name — the name
/// being the reference ports carry.
pub struct DataType {
    pub id: u128,
    pub name: String,
    /// Conversions declared to other types.
    pub conversions: Vec<Conversion>,
    /// Free-form metadata.
    pub meta: Vec<(String, MetaValue)>,
    /// Optional custom value UI.
    pub ui: Option<ValueUi>,
}

/// Whether some port of `ports` is named `name`.
pub open spec fn has_port(ports: Seq<Port>, name: Seq<char>) -> bool {
    exists|i: int| 0 <= i < ports.len() && #[trigger] ports[i].name@ == name
}

/// The index of the first port of `ports` named `name`, or `ports.len()`.
pub open spec fn port_index(ports: Seq<Port>, name: Seq<char>) -> int
    decreases ports.len(),
{
    if ports.len() == 0 {
        0
    } else if ports[0].name@ == name {
        0
    } else {
        1 + port_index(ports.drop_first(), name)
    }
}

/// The first port of `ports` named `name`.
pub open spec fn port_named(ports: Seq<Port>, name: Seq<char>) -> Option<Port> {
    let i = port_index(ports, name);
    if i < ports.len() { Some(ports[i]) } else { None }
}

pub proof fn lemma_port_index(ports: Seq<Port>, name: Seq<char>)
    ensures
        0 <= port_index(ports, name) <= ports.len(),
        port_index(ports, name) < ports.len() ==> ports[port_index(ports, name)].name@ == name,
        forall|j: int| 0 <= j < port_index(ports, name) ==> ports[j].name@ != name,
        port_index(ports, name) < ports.len() <==> has_port(ports, name),
    decreases ports.len(),
{
    if ports.len() > 0 && ports[0].name@ != name {
        lemma_port_index(ports.drop_first(), name);
        assert forall|j: int| 0 <= j < port_index(ports, name) implies ports[j].name@ != name by {
            if j > 0 {
                assert(ports[j] == ports.drop_first()[j - 1]);
            }
        }
        if has_port(ports, name) {
            let k = choose|k: int| 0 <= k < ports.len() && #[trigger] ports[k].name@ == name;
            assert(ports.drop_first()[k - 1].name@ == name);
        }
        if port_index(ports, name) < ports.len() {
            assert(ports[port_index(ports, name)] == ports.drop_first()[port_index(ports, name) - 1]);
        }
    } else if ports.len() > 0 {
        assert(ports[0].name@ == name);
    }
}

/// The port of `ports` named `name`, the first such if several are.
pub fn port<'p>(ports: &'p Vec<Port>, name: &str) -> (found: Option<&'p Port>)
    ensures
        match found {
            Some(p) => port_named(ports@, name@) == Some(*p),
            None => port_named(ports@, name@) is None,
        },
{
    proof {
        lemma_port_index(ports@, name@);
    }
    let mut i: usize = 0;
    while i < ports.len()
        invariant
            i <= ports.len(),
            forall|j: int| 0 <= j < i ==> ports@[j].name@ != name@,
            0 <= port_index(ports@, name@) <= ports@.len(),
            port_index(ports@, name@) < ports@.len() ==> ports@[port_index(ports@, name@)].name@ == name@,
            forall|j: int| 0 <= j < port_index(ports@, name@) ==> ports@[j].name@ != name@,
        decreases ports.len() - i,
    {
        if same_text(ports[i].name.as_str(), name) {
            return Some(&ports[i]);
        }
        i = i + 1;
    }
    None
}

/// Whether the node type declares a choice named `name`.
pub open spec fn choice_index(choices: Seq<Choice>, name: Seq<char>) -> int
    decreases choices.len(),
{
    if choices.len() == 0 {
        0
    } else if choices[0].name@ == name {
        0
    } else {
        1 + choice_index(choices.drop_first(), name)
    }
}

pub proof fn lemma_choice_index(choices: Seq<Choice>, name: Seq<char>)
    ensures
        0 <= choice_index(choices, name) <= choices.len(),
        choice_index(choices, name) < choices.len() ==> choices[choice_index(choices, name)].name@ == name,
        forall|j: int| 0 <= j < choice_index(choices, name) ==> choices[j].name@ != name,
    decreases choices.len(),
{
    if choices.len() > 0 && choices[0].name@ != name {
        lemma_choice_index(choices.drop_first(), name);
        assert forall|j: int| 0 <= j < choice_index(choices, name) implies choices[j].name@ != name by {
            if j > 0 {
                assert(choices[j] == choices.drop_first()[j - 1]);
            }
        }
        if choice_index(choices, name) < choices.len() {
            assert(choices[choice_index(choices, name)] == choices.drop_first()[choice_index(choices, name) - 1]);
        }
    }
}

/// The declared choice of `choices` named `name`, the first such.
pub open spec fn choice_named(choices: Seq<Choice>, name: Seq<char>) -> Option<Choice> {
    let i = choice_index(choices, name);
    if i < choices.len() { Some(choices[i]) } else { None }
}

/// The node type's declared choice named `name`.
pub fn declared_choice<'t>(node_type: &'t NodeType, name: &str) -> (found: Option<&'t Choice>)
    ensures
        match found {
            Some(c) => choice_named(node_type.choices@, name@) == Some(*c),
            None => choice_named(node_type.choices@, name@) is None,
        },
{
    proof {
        lemma_choice_index(node_type.choices@, name@);
    }
    let mut i: usize = 0;
    while i < node_type.choices.len()
        invariant
            i <= node_type.choices.len(),
            forall|j: int| 0 <= j < i ==> node_type.choices@[j].name@ != name@,
            0 <= choice_index(node_type.choices@, name@) <= node_type.choices@.len(),
            choice_index(node_type.choices@, name@) < node_type.choices@.len() ==> node_type.choices@[choice_index(node_type.choices@, name@)].name@ == name@,
            forall|j: int| 0 <= j < choice_index(node_type.choices@, name@) ==> node_type.choices@[j].name@ != name@,
        decreases node_type.choices.len() - i,
    {
        if same_text(node_type.choices[i].name.as_str(), name) {
            assert(choice_index(node_type.choices@, name@) == i as int);
            let found = &node_type.choices[i];
            assert(*found == node_type.choices@[i as int]);
            assert(node_type.choices@ == node_type.choices@);
            assert(choice_named(node_type.choices@, name@) == Some(*found));
            return Some(found);
        }
        i = i + 1;
    }
    None
}

} // verus!
