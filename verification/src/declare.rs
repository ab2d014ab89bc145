//! Building blocks for the node types a plugin declares: ports with one
//! type or a family of members, and choices with their options, each with
//! the spec a declaration's contract states it by.

use vstd::prelude::*;
use crate::model::{Choice, NodeType, Port};

verus! {

/// Whether `texts` holds exactly the texts of `expected`, in order.
pub open spec fn texts_are(texts: Seq<String>, expected: Seq<Seq<char>>) -> bool {
    &&& texts.len() == expected.len()
    &&& forall|k: int| 0 <= k < expected.len() ==> (#[trigger] texts[k])@ == expected[k]
}

/// Whether a port is declared as `name`, carrying `types` in order, in the
/// family `family` if any.
pub open spec fn port_is(port: Port, name: Seq<char>, types: Seq<Seq<char>>, family: Option<Seq<char>>) -> bool {
    &&& port.name@ == name
    &&& texts_are(port.type_refs@, types)
    &&& match (port.family, family) {
        (Some(f), Some(g)) => f@ == g,
        (None, None) => true,
        _ => false,
    }
}

/// Whether a choice is declared as `name`, offering `options` in order.
pub open spec fn choice_is(choice: Choice, name: Seq<char>, options: Seq<Seq<char>>) -> bool {
    &&& choice.name@ == name
    &&& texts_are(choice.options@, options)
}

/// The owned texts of `texts`, in order.
pub fn owned_texts(texts: &Vec<&str>) -> (owned: Vec<String>)
    ensures
        owned@.len() == texts@.len(),
        forall|k: int| 0 <= k < texts@.len() ==> (#[trigger] owned@[k])@ == texts@[k]@,
{
    let mut owned: Vec<String> = Vec::new();
    let mut k: usize = 0;
    while k < texts.len()
        invariant
            k <= texts@.len(),
            owned@.len() == k,
            forall|j: int| 0 <= j < k ==> (#[trigger] owned@[j])@ == texts@[j]@,
        decreases texts@.len() - k,
    {
        owned.push(texts[k].to_owned());
        k = k + 1;
    }
    owned
}

/// A port carrying the one type `type_ref`, in no family.
pub fn typed_port(name: &str, type_ref: &str) -> (port: Port)
    ensures
        port_is(port, name@, seq![type_ref@], None),
{
    let mut type_refs: Vec<String> = Vec::new();
    type_refs.push(type_ref.to_owned());
    Port { name: name.to_owned(), type_refs, family: None }
}

/// A port of the family `family`, carrying its `members` in order.
pub fn family_port(name: &str, family: &str, members: &Vec<&str>) -> (port: Port)
    ensures
        port_is(port, name@, members@.map_values(|m: &str| m@), Some(family@)),
{
    let type_refs = owned_texts(members);
    Port { name: name.to_owned(), type_refs, family: Some(family.to_owned()) }
}

/// A choice named `name` offering `options` in order.
pub fn choice(name: &str, options: &Vec<&str>) -> (choice: Choice)
    ensures
        choice_is(choice, name@, options@.map_values(|o: &str| o@)),
{
    Choice { name: name.to_owned(), options: owned_texts(options) }
}

/// A port as a declaration states it: name, carried types, family.
pub type PortSpec = (Seq<char>, Seq<Seq<char>>, Option<Seq<char>>);

/// A choice as a declaration states it: name and options.
pub type ChoiceSpec = (Seq<char>, Seq<Seq<char>>);

/// Whether `ports` are declared as `specs`, in order.
pub open spec fn ports_are(ports: Seq<Port>, specs: Seq<PortSpec>) -> bool {
    &&& ports.len() == specs.len()
    &&& forall|k: int| 0 <= k < specs.len() ==> port_is(#[trigger] ports[k], specs[k].0, specs[k].1, specs[k].2)
}

/// Whether `choices` are declared as `specs`, in order.
pub open spec fn choices_are(choices: Seq<Choice>, specs: Seq<ChoiceSpec>) -> bool {
    &&& choices.len() == specs.len()
    &&& forall|k: int| 0 <= k < specs.len() ==> choice_is(#[trigger] choices[k], specs[k].0, specs[k].1)
}

/// Whether a node type is declared with these descriptors, a behaviour,
/// no sub-grouping and no custom UI.
pub open spec fn node_is(
    node_type: NodeType,
    type_ref: Seq<char>,
    label: Seq<char>,
    icon: Seq<char>,
    plugin: Seq<char>,
    inputs: Seq<PortSpec>,
    outputs: Seq<PortSpec>,
    choices: Seq<ChoiceSpec>,
    checked: bool,
) -> bool {
    &&& node_type.type_ref@ == type_ref
    &&& node_type.label@ == label
    &&& node_type.icon@ == icon
    &&& node_type.plugin@ == plugin
    &&& node_type.sub_group is None
    &&& node_type.ui is None
    &&& ports_are(node_type.inputs@, inputs)
    &&& ports_are(node_type.outputs@, outputs)
    &&& choices_are(node_type.choices@, choices)
    &&& node_type.behaviour
    &&& node_type.check_parameters == checked
}

} // verus!
