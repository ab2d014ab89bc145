//! Type resolution across declared unions: the rule every connection, every
//! parameter literal, and every exposed group port resolves by. The first
//! exact match, walking the upstream's declared order, wins; failing that,
//! the first declared conversion that fits. The walk follows declared
//! order, never registry order, so resolution is deterministic.

use vstd::prelude::*;
use crate::model::{Conversion, DataType};
use crate::registry::Registry;
use crate::text::{contains_name, has_name};

verus! {

/// A data type as a resolution names it: its id and its name.
pub struct Resolved {
    pub id: u128,
    pub name: String,
}

impl Resolved {
    pub open spec fn of(data_type: DataType) -> Resolved {
        Resolved { id: data_type.id, name: data_type.name }
    }

    /// A copy of this resolution.
    pub fn copy(&self) -> (copy: Resolved)
        ensures
            copy == *self,
    {
        Resolved { id: self.id, name: self.name.clone() }
    }
}

/// The resolution of one data type.
pub fn resolved(data_type: &DataType) -> (r: Resolved)
    ensures
        r == Resolved::of(*data_type),
{
    Resolved { id: data_type.id, name: data_type.name.clone() }
}

/// The first type of `from`, at index `i` or later, that the registry knows
/// and `to` declares too.
pub open spec fn exact_from(registry: Registry, from: Seq<String>, to: Seq<String>, i: int) -> Option<DataType>
    decreases from.len() - i,
{
    if i < 0 || i >= from.len() {
        None
    } else {
        match registry.data_type_of(from[i]@) {
            Some(data_type) if has_name(to, from[i]@) => Some(data_type),
            _ => exact_from(registry, from, to, i + 1),
        }
    }
}

/// The first conversion `data_type` declares, at index `k` or later, whose
/// registered target `to` declares.
pub open spec fn conversion_from(registry: Registry, data_type: DataType, to: Seq<String>, k: int) -> Option<(DataType, Conversion)>
    decreases data_type.conversions@.len() - k,
{
    if k < 0 || k >= data_type.conversions@.len() {
        None
    } else {
        let conversion = data_type.conversions@[k];
        match registry.data_type_with_id(conversion.target) {
            Some(target) if has_name(to, target.name@) => Some((target, conversion)),
            _ => conversion_from(registry, data_type, to, k + 1),
        }
    }
}

/// The first declared conversion, walking `from` at index `i` or later and
/// each type's conversions in order, that lands on a type `to` declares.
pub open spec fn bridge_from(registry: Registry, from: Seq<String>, to: Seq<String>, i: int) -> Option<(DataType, Conversion)>
    decreases from.len() - i,
{
    if i < 0 || i >= from.len() {
        None
    } else {
        match registry.data_type_of(from[i]@) {
            Some(data_type) => match conversion_from(registry, data_type, to, 0) {
                Some(found) => Some(found),
                None => bridge_from(registry, from, to, i + 1),
            },
            None => bridge_from(registry, from, to, i + 1),
        }
    }
}

/// A connection's resolution across the two ports' declared unions: the
/// first exact match in `from`'s order, else the first declared conversion
/// that fits.
pub open spec fn resolution(registry: Registry, from: Seq<String>, to: Seq<String>) -> Option<(Resolved, Option<Conversion>)> {
    match exact_from(registry, from, to, 0) {
        Some(data_type) => Some((Resolved::of(data_type), None)),
        None => match bridge_from(registry, from, to, 0) {
            Some((target, conversion)) => Some((Resolved::of(target), Some(conversion))),
            None => None,
        },
    }
}

fn conversion_into(registry: &Registry, data_type: &DataType, to: &Vec<String>) -> (found: Option<(Resolved, Conversion)>)
    requires
        registry.wf(),
    ensures
        match found {
            Some((r, c)) => match conversion_from(*registry, *data_type, to@, 0) {
                Some((t, c2)) => r == Resolved::of(t) && c == c2,
                None => false,
            },
            None => conversion_from(*registry, *data_type, to@, 0) is None,
        },
{
    let mut k: usize = 0;
    while k < data_type.conversions.len()
        invariant
            registry.wf(),
            k <= data_type.conversions@.len(),
            conversion_from(*registry, *data_type, to@, 0) == conversion_from(*registry, *data_type, to@, k as int),
        decreases data_type.conversions@.len() - k,
    {
        let conversion = data_type.conversions[k];
        match registry.data_type_by_id(conversion.target) {
            Some(target) => {
                if contains_name(to, target.name.as_str()) {
                    return Some((resolved(target), conversion));
                }
            },
            None => {},
        }
        k = k + 1;
    }
    None
}

/// Resolve a connection's type across the two ports' declared unions, in
/// declaration order: the first exact match wins; failing that, the first
/// declared conversion that fits. Registry iteration order is never
/// consulted.
pub fn resolve_types(from: &Vec<String>, to: &Vec<String>, registry: &Registry) -> (found: Option<(Resolved, Option<Conversion>)>)
    requires
        registry.wf(),
    ensures
        found == resolution(*registry, from@, to@),
{
    let mut i: usize = 0;
    while i < from.len()
        invariant
            registry.wf(),
            i <= from@.len(),
            exact_from(*registry, from@, to@, 0) == exact_from(*registry, from@, to@, i as int),
        decreases from@.len() - i,
    {
        match registry.data_type(from[i].as_str()) {
            Some(data_type) => {
                if contains_name(to, from[i].as_str()) {
                    return Some((resolved(data_type), None));
                }
            },
            None => {},
        }
        i = i + 1;
    }
    let mut i: usize = 0;
    while i < from.len()
        invariant
            registry.wf(),
            i <= from@.len(),
            exact_from(*registry, from@, to@, 0) is None,
            bridge_from(*registry, from@, to@, 0) == bridge_from(*registry, from@, to@, i as int),
        decreases from@.len() - i,
    {
        match registry.data_type(from[i].as_str()) {
            Some(data_type) => {
                match conversion_into(registry, data_type, to) {
                    Some((target, conversion)) => {
                        return Some((target, Some(conversion)));
                    },
                    None => {},
                }
            },
            None => {},
        }
        i = i + 1;
    }
    None
}

} // verus!
