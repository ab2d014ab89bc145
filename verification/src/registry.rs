//! The vocabulary of one binary: every node type and data type the linked
//! plugins declared, collected once, validated, and queried many times.
//!
//! Collecting validates the declarations: a taken type reference, a taken
//! data type id or name, and a conversion whose target never registered are
//! refused, naming both declarations — nothing is silently dropped.

use vstd::prelude::*;
use vstd::string::StringExecFns;
use crate::ids::uuid_text;
use crate::model::{DataType, NodeType};
use crate::text::same_text;

verus! {

/// The collected declarations of every linked plugin.
pub struct Registry {
    pub node_types: Vec<NodeType>,
    pub data_types: Vec<DataType>,
}

/// Type references are unique across the node types.
pub open spec fn unique_type_refs(node_types: Seq<NodeType>) -> bool {
    forall|i: int, j: int|
        0 <= i < j < node_types.len() ==> #[trigger] node_types[i].type_ref@ != #[trigger] node_types[j].type_ref@
}

/// Names and ids are unique across the data types.
pub open spec fn unique_data_types(data_types: Seq<DataType>) -> bool {
    forall|i: int, j: int|
        0 <= i < j < data_types.len() ==> {
            &&& #[trigger] data_types[i].name@ != #[trigger] data_types[j].name@
            &&& data_types[i].id != data_types[j].id
        }
}

/// Whether some data type carries the id.
pub open spec fn registers_id(data_types: Seq<DataType>, id: u128) -> bool {
    exists|j: int| 0 <= j < data_types.len() && #[trigger] data_types[j].id == id
}

/// Every conversion is declared by the type it converts from, and its
/// target is registered.
pub open spec fn conversions_resolve(data_types: Seq<DataType>) -> bool {
    forall|i: int| 0 <= i < data_types.len() ==> #[trigger] conversions_resolve_at(data_types, i)
}

/// Every conversion the `i`th type declares starts at it and lands on a
/// registered type.
pub open spec fn conversions_resolve_at(data_types: Seq<DataType>, i: int) -> bool {
    &&& forall|k: int| 0 <= k < data_types[i].conversions@.len()
        ==> #[trigger] data_types[i].conversions@[k].source == data_types[i].id
    &&& forall|k: int| 0 <= k < data_types[i].conversions@.len()
        ==> registers_id(data_types, #[trigger] data_types[i].conversions@[k].target)
}

/// Whether every conversion the `i`th data type declares starts at it
/// and lands on a registered type; the refusal names the first that
/// does not.
fn conversions_of(data_types: &Vec<DataType>, i: usize) -> (checked: Result<(), String>)
    requires
        i < data_types@.len(),
    ensures
        checked is Ok <==> conversions_resolve_at(data_types@, i as int),
{
    let declared = &data_types[i];
    let mut k: usize = 0;
    while k < declared.conversions.len()
        invariant
            declared == data_types@[i as int],
            k <= declared.conversions@.len(),
            forall|c: int| 0 <= c < k ==> #[trigger] declared.conversions@[c].source == declared.id,
            forall|c: int| 0 <= c < k ==> registers_id(data_types@, #[trigger] declared.conversions@[c].target),
        decreases declared.conversions@.len() - k,
    {
        let conversion = declared.conversions[k];
        if conversion.source != declared.id {
            let mut message = "data type `".to_owned();
            message.append(declared.name.as_str());
            message.append("` declares a conversion from id `");
            message.append(uuid_text(conversion.source).as_str());
            message.append("`, which is not its own");
            return Err(message);
        }
        if !registered(data_types, conversion.target) {
            let mut message = "data type `".to_owned();
            message.append(declared.name.as_str());
            message.append("` declares a conversion to id `");
            message.append(uuid_text(conversion.target).as_str());
            message.append("`, but no type with that id is registered");
            return Err(message);
        }
        k = k + 1;
    }
    Ok(())
}

/// Whether some data type of the list carries the id.
fn registered(data_types: &Vec<DataType>, id: u128) -> (found: bool)
    ensures
        found == registers_id(data_types@, id),
{
    let mut j: usize = 0;
    while j < data_types.len()
        invariant
            j <= data_types.len(),
            forall|w: int| 0 <= w < j ==> data_types@[w].id != id,
        decreases data_types.len() - j,
    {
        if data_types[j].id == id {
            return true;
        }
        j = j + 1;
    }
    false
}

impl Registry {
    /// A registry whose declarations passed validation.
    pub open spec fn wf(&self) -> bool {
        &&& unique_type_refs(self.node_types@)
        &&& unique_data_types(self.data_types@)
        &&& conversions_resolve(self.data_types@)
    }

    /// The node type declared under `type_ref`, if any.
    pub open spec fn node_type_of(&self, type_ref: Seq<char>) -> Option<NodeType> {
        if exists|i: int| 0 <= i < self.node_types@.len() && #[trigger] self.node_types@[i].type_ref@ == type_ref {
            let i = choose|i: int| 0 <= i < self.node_types@.len() && #[trigger] self.node_types@[i].type_ref@ == type_ref;
            Some(self.node_types@[i])
        } else {
            None
        }
    }

    /// The data type registered under `name`, if any.
    pub open spec fn data_type_of(&self, name: Seq<char>) -> Option<DataType> {
        if exists|i: int| 0 <= i < self.data_types@.len() && #[trigger] self.data_types@[i].name@ == name {
            let i = choose|i: int| 0 <= i < self.data_types@.len() && #[trigger] self.data_types@[i].name@ == name;
            Some(self.data_types@[i])
        } else {
            None
        }
    }

    /// The data type registered under `id`, if any.
    pub open spec fn data_type_with_id(&self, id: u128) -> Option<DataType> {
        if exists|i: int| 0 <= i < self.data_types@.len() && #[trigger] self.data_types@[i].id == id {
            let i = choose|i: int| 0 <= i < self.data_types@.len() && #[trigger] self.data_types@[i].id == id;
            Some(self.data_types@[i])
        } else {
            None
        }
    }

    /// Gather and validate the declarations of every linked plugin: the
    /// node types and data types as the linked crates contributed them.
    pub fn collect(node_types: Vec<NodeType>, data_types: Vec<DataType>) -> (result: Result<Registry, String>)
        ensures
            match result {
                Ok(registry) => {
                    &&& registry.node_types@ == node_types@
                    &&& registry.data_types@ == data_types@
                    &&& registry.wf()
                },
                Err(_) => !(Registry { node_types, data_types }).wf(),
            },
    {
        let mut i: usize = 0;
        while i < node_types.len()
            invariant
                i <= node_types.len(),
                forall|a: int, b: int| 0 <= a < b < i ==> #[trigger] node_types@[a].type_ref@ != #[trigger] node_types@[b].type_ref@,
            decreases node_types.len() - i,
        {
            let mut j: usize = 0;
            while j < i
                invariant
                    i < node_types.len(),
                    j <= i,
                    forall|a: int| 0 <= a < j ==> node_types@[a].type_ref@ != node_types@[i as int].type_ref@,
                decreases i - j,
            {
                if same_text(node_types[j].type_ref.as_str(), node_types[i].type_ref.as_str()) {
                    let mut message = "duplicate node type reference `".to_owned();
                    message.append(node_types[i].type_ref.as_str());
                    message.append("`: declared by both plugin `");
                    message.append(node_types[j].plugin.as_str());
                    message.append("` and plugin `");
                    message.append(node_types[i].plugin.as_str());
                    message.append("`");
                    return Err(message);
                }
                j = j + 1;
            }
            i = i + 1;
        }
        let mut i: usize = 0;
        while i < data_types.len()
            invariant
                i <= data_types.len(),
                unique_type_refs(node_types@),
                forall|a: int, b: int| 0 <= a < b < i ==> {
                    &&& #[trigger] data_types@[a].name@ != #[trigger] data_types@[b].name@
                    &&& data_types@[a].id != data_types@[b].id
                },
            decreases data_types.len() - i,
        {
            let mut j: usize = 0;
            while j < i
                invariant
                    i < data_types.len(),
                    j <= i,
                    forall|a: int| 0 <= a < j ==> {
                        &&& data_types@[a].name@ != data_types@[i as int].name@
                        &&& data_types@[a].id != data_types@[i as int].id
                    },
                decreases i - j,
            {
                if data_types[j].id == data_types[i].id {
                    let mut message = "duplicate data type id `".to_owned();
                    message.append(uuid_text(data_types[i].id).as_str());
                    message.append("`: registered by both `");
                    message.append(data_types[j].name.as_str());
                    message.append("` and `");
                    message.append(data_types[i].name.as_str());
                    message.append("`");
                    return Err(message);
                }
                if same_text(data_types[j].name.as_str(), data_types[i].name.as_str()) {
                    let mut message = "duplicate data type name `".to_owned();
                    message.append(data_types[i].name.as_str());
                    message.append("`: registered by both id `");
                    message.append(uuid_text(data_types[j].id).as_str());
                    message.append("` and id `");
                    message.append(uuid_text(data_types[i].id).as_str());
                    message.append("`");
                    return Err(message);
                }
                j = j + 1;
            }
            i = i + 1;
        }
        let mut i: usize = 0;
        while i < data_types.len()
            invariant
                i <= data_types.len(),
                unique_type_refs(node_types@),
                unique_data_types(data_types@),
                forall|a: int| 0 <= a < i ==> #[trigger] conversions_resolve_at(data_types@, a),
            decreases data_types.len() - i,
        {
            match conversions_of(&data_types, i) {
                Ok(()) => {}
                Err(message) => {
                    return Err(message);
                }
            }
            i = i + 1;
        }
        Ok(Registry { node_types, data_types })
    }

    /// The node type declared under `type_ref`, if any.
    pub fn node_type(&self, type_ref: &str) -> (found: Option<&NodeType>)
        requires
            self.wf(),
        ensures
            match found {
                Some(t) => self.node_type_of(type_ref@) == Some(*t),
                None => self.node_type_of(type_ref@) is None,
            },
    {
        let mut i: usize = 0;
        while i < self.node_types.len()
            invariant
                i <= self.node_types.len(),
                self.wf(),
                forall|j: int| 0 <= j < i ==> self.node_types@[j].type_ref@ != type_ref@,
            decreases self.node_types.len() - i,
        {
            if same_text(self.node_types[i].type_ref.as_str(), type_ref) {
                proof {
                    let c = choose|c: int| 0 <= c < self.node_types@.len() && #[trigger] self.node_types@[c].type_ref@ == type_ref@;
                    assert(self.node_types@[i as int].type_ref@ == type_ref@);
                    if c != i {
                        if c < i {
                            assert(self.node_types@[c].type_ref@ != self.node_types@[i as int].type_ref@);
                        } else {
                            assert(self.node_types@[i as int].type_ref@ != self.node_types@[c].type_ref@);
                        }
                    }
                }
                return Some(&self.node_types[i]);
            }
            i = i + 1;
        }
        None
    }

    /// The data type registered under `name`, if any.
    pub fn data_type(&self, name: &str) -> (found: Option<&DataType>)
        requires
            self.wf(),
        ensures
            match found {
                Some(t) => self.data_type_of(name@) == Some(*t),
                None => self.data_type_of(name@) is None,
            },
    {
        let mut i: usize = 0;
        while i < self.data_types.len()
            invariant
                i <= self.data_types.len(),
                self.wf(),
                forall|j: int| 0 <= j < i ==> self.data_types@[j].name@ != name@,
            decreases self.data_types.len() - i,
        {
            if same_text(self.data_types[i].name.as_str(), name) {
                proof {
                    let c = choose|c: int| 0 <= c < self.data_types@.len() && #[trigger] self.data_types@[c].name@ == name@;
                    assert(self.data_types@[i as int].name@ == name@);
                    if c != i {
                        if c < i {
                            assert(self.data_types@[c].name@ != self.data_types@[i as int].name@);
                        } else {
                            assert(self.data_types@[i as int].name@ != self.data_types@[c].name@);
                        }
                    }
                }
                return Some(&self.data_types[i]);
            }
            i = i + 1;
        }
        None
    }

    /// The data type registered under `id`, if any.
    pub fn data_type_by_id(&self, id: u128) -> (found: Option<&DataType>)
        requires
            self.wf(),
        ensures
            match found {
                Some(t) => self.data_type_with_id(id) == Some(*t),
                None => self.data_type_with_id(id) is None,
            },
    {
        let mut i: usize = 0;
        while i < self.data_types.len()
            invariant
                i <= self.data_types.len(),
                self.wf(),
                forall|j: int| 0 <= j < i ==> self.data_types@[j].id != id,
            decreases self.data_types.len() - i,
        {
            if self.data_types[i].id == id {
                proof {
                    let c = choose|c: int| 0 <= c < self.data_types@.len() && #[trigger] self.data_types@[c].id == id;
                    if c != i {
                        if c < i {
                            assert(self.data_types@[c].name@ != self.data_types@[i as int].name@);
                        } else {
                            assert(self.data_types@[i as int].name@ != self.data_types@[c].name@);
                        }
                    }
                }
                return Some(&self.data_types[i]);
            }
            i = i + 1;
        }
        None
    }
}

} // verus!
