//! How a parameter literal becomes a value: the literal's YAML scalar kind
//! stands in as the upstream side under the same rules a wired input
//! follows — the exact kind first, then the first declared conversion that
//! bridges — so a hand-written `3` and the editor's committed `3` compile
//! to the same value, by the same rules, at compile time.

use vstd::prelude::*;
use crate::graph::ParameterValue;
use crate::model::{Conversion, DataType};
use crate::registry::Registry;
use crate::resolve::{resolved, Resolved};
use crate::text::same_text;

verus! {

/// A base scalar value: what a parameter literal materializes as. A float
/// is carried as its IEEE 754 bits.
pub enum Scalar {
    I8(i8),
    I16(i16),
    I32(i32),
    I64(i64),
    U8(u8),
    U16(u16),
    U32(u32),
    U64(u64),
    F32(u32),
    F64(u64),
    Bool(bool),
    Str(String),
}

impl Scalar {
    /// A copy of this value.
    pub fn copy(&self) -> (copy: Scalar)
        ensures
            copy == *self,
    {
        match self {
            Scalar::I8(v) => Scalar::I8(*v),
            Scalar::I16(v) => Scalar::I16(*v),
            Scalar::I32(v) => Scalar::I32(*v),
            Scalar::I64(v) => Scalar::I64(*v),
            Scalar::U8(v) => Scalar::U8(*v),
            Scalar::U16(v) => Scalar::U16(*v),
            Scalar::U32(v) => Scalar::U32(*v),
            Scalar::U64(v) => Scalar::U64(*v),
            Scalar::F32(v) => Scalar::F32(*v),
            Scalar::F64(v) => Scalar::F64(*v),
            Scalar::Bool(v) => Scalar::Bool(*v),
            Scalar::Str(v) => Scalar::Str(v.clone()),
        }
    }
}

/// The four YAML scalar kinds a parameter literal can carry.
#[derive(Clone, Copy, PartialEq, Eq, Structural, Debug)]
pub enum ScalarKind {
    Integer,
    Float,
    Boolean,
    Text,
}

pub open spec fn literal_kind(literal: ParameterValue) -> ScalarKind {
    match literal {
        ParameterValue::Bool(_) => ScalarKind::Boolean,
        ParameterValue::Int(_) => ScalarKind::Integer,
        ParameterValue::Float(_) => ScalarKind::Float,
        ParameterValue::Str(_) => ScalarKind::Text,
    }
}

/// The scalar names standing in for each kind, in the order conversion
/// candidates are tried.
pub open spec fn kind_names(kind: ScalarKind) -> Seq<Seq<char>> {
    match kind {
        ScalarKind::Integer => seq!["i8"@, "i16"@, "i32"@, "i64"@, "u8"@, "u16"@, "u32"@, "u64"@],
        ScalarKind::Float => seq!["f32"@, "f64"@],
        ScalarKind::Boolean => seq!["bool"@],
        ScalarKind::Text => seq!["String"@],
    }
}

/// The kind a scalar name stands in for, if it names a base scalar.
pub open spec fn scalar_kind(name: Seq<char>) -> Option<ScalarKind> {
    if kind_names(ScalarKind::Integer).contains(name) {
        Some(ScalarKind::Integer)
    } else if kind_names(ScalarKind::Float).contains(name) {
        Some(ScalarKind::Float)
    } else if kind_names(ScalarKind::Boolean).contains(name) {
        Some(ScalarKind::Boolean)
    } else if kind_names(ScalarKind::Text).contains(name) {
        Some(ScalarKind::Text)
    } else {
        None
    }
}

/// A literal presented as a value of the scalar `name` names: an integer
/// outside that scalar's range, or a float whose `f32` narrowing is not
/// finite, yields none.
pub open spec fn materialized(literal: ParameterValue, name: Seq<char>) -> Option<Scalar> {
    match literal {
        ParameterValue::Bool(b) => if name == "bool"@ { Some(Scalar::Bool(b)) } else { None },
        ParameterValue::Int(v) => {
            if name == "i64"@ {
                Some(Scalar::I64(v))
            } else if name == "i32"@ {
                if i32::MIN <= v <= i32::MAX { Some(Scalar::I32(v as i32)) } else { None }
            } else if name == "i16"@ {
                if i16::MIN <= v <= i16::MAX { Some(Scalar::I16(v as i16)) } else { None }
            } else if name == "i8"@ {
                if i8::MIN <= v <= i8::MAX { Some(Scalar::I8(v as i8)) } else { None }
            } else if name == "u64"@ {
                if 0 <= v { Some(Scalar::U64(v as u64)) } else { None }
            } else if name == "u32"@ {
                if 0 <= v <= u32::MAX { Some(Scalar::U32(v as u32)) } else { None }
            } else if name == "u16"@ {
                if 0 <= v <= u16::MAX { Some(Scalar::U16(v as u16)) } else { None }
            } else if name == "u8"@ {
                if 0 <= v <= u8::MAX { Some(Scalar::U8(v as u8)) } else { None }
            } else {
                None
            }
        },
        ParameterValue::Float(f) => {
            if name == "f64"@ {
                Some(Scalar::F64(f.bits))
            } else if name == "f32"@ {
                match f.narrowed {
                    Some(n) => Some(Scalar::F32(n)),
                    None => None,
                }
            } else {
                None
            }
        },
        ParameterValue::Str(s) => if name == "String"@ { Some(Scalar::Str(s)) } else { None },
    }
}

/// The first declared type, at index `i` or later, the literal's kind
/// matches exactly and the literal fits.
pub open spec fn exact_literal(registry: Registry, literal: ParameterValue, declared: Seq<String>, i: int) -> Option<(DataType, Scalar)>
    decreases declared.len() - i,
{
    if i < 0 || i >= declared.len() {
        None
    } else {
        match registry.data_type_of(declared[i]@) {
            Some(data_type) => if scalar_kind(data_type.name@) == Some(literal_kind(literal)) {
                match materialized(literal, data_type.name@) {
                    Some(value) => Some((data_type, value)),
                    None => exact_literal(registry, literal, declared, i + 1),
                }
            } else {
                exact_literal(registry, literal, declared, i + 1)
            },
            None => exact_literal(registry, literal, declared, i + 1),
        }
    }
}

/// The first conversion of `source`, at index `k` or later, onto `target`,
/// with the literal fitting the source scalar.
pub open spec fn source_conversion(literal: ParameterValue, source: DataType, target: DataType, k: int) -> Option<(Scalar, Conversion)>
    decreases source.conversions@.len() - k,
{
    if k < 0 || k >= source.conversions@.len() {
        None
    } else if source.conversions@[k].target == target.id && materialized(literal, source.name@) is Some {
        Some((materialized(literal, source.name@).unwrap(), source.conversions@[k]))
    } else {
        source_conversion(literal, source, target, k + 1)
    }
}

/// The first source scalar of the literal's kind, at index `j` or later,
/// whose declared conversion reaches `target`.
pub open spec fn source_bridge(registry: Registry, literal: ParameterValue, target: DataType, sources: Seq<Seq<char>>, j: int) -> Option<(Scalar, Conversion)>
    decreases sources.len() - j,
{
    if j < 0 || j >= sources.len() {
        None
    } else {
        match registry.data_type_of(sources[j]) {
            Some(source) => match source_conversion(literal, source, target, 0) {
                Some(found) => Some(found),
                None => source_bridge(registry, literal, target, sources, j + 1),
            },
            None => source_bridge(registry, literal, target, sources, j + 1),
        }
    }
}

/// The first declared type, at index `i` or later, that a declared
/// conversion from one of the literal kind's scalars reaches.
pub open spec fn bridged_literal(registry: Registry, literal: ParameterValue, declared: Seq<String>, i: int) -> Option<(DataType, Scalar, Conversion)>
    decreases declared.len() - i,
{
    if i < 0 || i >= declared.len() {
        None
    } else {
        match registry.data_type_of(declared[i]@) {
            Some(target) => match source_bridge(registry, literal, target, kind_names(literal_kind(literal)), 0) {
                Some((value, conversion)) => Some((target, value, conversion)),
                None => bridged_literal(registry, literal, declared, i + 1),
            },
            None => bridged_literal(registry, literal, declared, i + 1),
        }
    }
}

/// A literal's resolution against a declared union: the type it resolves
/// to, the scalar it materializes as, and the declared conversion the
/// value rides to that type, if one bridged.
pub open spec fn literal_resolution(registry: Registry, literal: ParameterValue, declared: Seq<String>) -> Option<(Resolved, Scalar, Option<Conversion>)> {
    match exact_literal(registry, literal, declared, 0) {
        Some((data_type, value)) => Some((Resolved::of(data_type), value, None)),
        None => match bridged_literal(registry, literal, declared, 0) {
            Some((target, value, conversion)) => Some((Resolved::of(target), value, Some(conversion))),
            None => None,
        },
    }
}

fn kind_of(literal: &ParameterValue) -> (kind: ScalarKind)
    ensures
        kind == literal_kind(*literal),
{
    match literal {
        ParameterValue::Bool(_) => ScalarKind::Boolean,
        ParameterValue::Int(_) => ScalarKind::Integer,
        ParameterValue::Float(_) => ScalarKind::Float,
        ParameterValue::Str(_) => ScalarKind::Text,
    }
}

/// The scalar names standing in for a kind.
pub fn names_of_kind(kind: ScalarKind) -> (names: Vec<String>)
    ensures
        names@.map_values(|name: String| name@) == kind_names(kind),
{
    let names: Vec<String> = match kind {
        ScalarKind::Integer => vec![
            "i8".to_owned(), "i16".to_owned(), "i32".to_owned(), "i64".to_owned(),
            "u8".to_owned(), "u16".to_owned(), "u32".to_owned(), "u64".to_owned(),
        ],
        ScalarKind::Float => vec!["f32".to_owned(), "f64".to_owned()],
        ScalarKind::Boolean => vec!["bool".to_owned()],
        ScalarKind::Text => vec!["String".to_owned()],
    };
    assert(names@.map_values(|name: String| name@) =~= kind_names(kind));
    names
}

/// The kind a scalar name stands in for.
pub fn kind_of_name(name: &str) -> (kind: Option<ScalarKind>)
    ensures
        kind == scalar_kind(name@),
{
    if same_text(name, "i8") || same_text(name, "i16") || same_text(name, "i32") || same_text(name, "i64")
        || same_text(name, "u8") || same_text(name, "u16") || same_text(name, "u32") || same_text(name, "u64") {
        assert(kind_names(ScalarKind::Integer).contains(name@)) by {
            let s = kind_names(ScalarKind::Integer);
            if name@ == "i8"@ { assert(s[0] == name@); }
            else if name@ == "i16"@ { assert(s[1] == name@); }
            else if name@ == "i32"@ { assert(s[2] == name@); }
            else if name@ == "i64"@ { assert(s[3] == name@); }
            else if name@ == "u8"@ { assert(s[4] == name@); }
            else if name@ == "u16"@ { assert(s[5] == name@); }
            else if name@ == "u32"@ { assert(s[6] == name@); }
            else { assert(s[7] == name@); }
        }
        Some(ScalarKind::Integer)
    } else if same_text(name, "f32") || same_text(name, "f64") {
        assert(!kind_names(ScalarKind::Integer).contains(name@));
        assert(kind_names(ScalarKind::Float).contains(name@)) by {
            let s = kind_names(ScalarKind::Float);
            if name@ == "f32"@ { assert(s[0] == name@); } else { assert(s[1] == name@); }
        }
        Some(ScalarKind::Float)
    } else if same_text(name, "bool") {
        assert(!kind_names(ScalarKind::Integer).contains(name@));
        assert(!kind_names(ScalarKind::Float).contains(name@));
        assert(kind_names(ScalarKind::Boolean)[0] == name@);
        Some(ScalarKind::Boolean)
    } else if same_text(name, "String") {
        assert(!kind_names(ScalarKind::Integer).contains(name@));
        assert(!kind_names(ScalarKind::Float).contains(name@));
        assert(!kind_names(ScalarKind::Boolean).contains(name@));
        assert(kind_names(ScalarKind::Text)[0] == name@);
        Some(ScalarKind::Text)
    } else {
        assert(!kind_names(ScalarKind::Integer).contains(name@));
        assert(!kind_names(ScalarKind::Float).contains(name@));
        assert(!kind_names(ScalarKind::Boolean).contains(name@));
        assert(!kind_names(ScalarKind::Text).contains(name@));
        None
    }
}

/// Present a literal as a value of the scalar `name` names.
pub fn materialize(literal: &ParameterValue, name: &str) -> (value: Option<Scalar>)
    ensures
        value == materialized(*literal, name@),
{
    match literal {
        ParameterValue::Bool(b) => if same_text(name, "bool") { Some(Scalar::Bool(*b)) } else { None },
        ParameterValue::Int(v) => {
            let v = *v;
            if same_text(name, "i64") {
                Some(Scalar::I64(v))
            } else if same_text(name, "i32") {
                if i32::MIN as i64 <= v && v <= i32::MAX as i64 { Some(Scalar::I32(v as i32)) } else { None }
            } else if same_text(name, "i16") {
                if i16::MIN as i64 <= v && v <= i16::MAX as i64 { Some(Scalar::I16(v as i16)) } else { None }
            } else if same_text(name, "i8") {
                if i8::MIN as i64 <= v && v <= i8::MAX as i64 { Some(Scalar::I8(v as i8)) } else { None }
            } else if same_text(name, "u64") {
                if 0 <= v { Some(Scalar::U64(v as u64)) } else { None }
            } else if same_text(name, "u32") {
                if 0 <= v && v <= u32::MAX as i64 { Some(Scalar::U32(v as u32)) } else { None }
            } else if same_text(name, "u16") {
                if 0 <= v && v <= u16::MAX as i64 { Some(Scalar::U16(v as u16)) } else { None }
            } else if same_text(name, "u8") {
                if 0 <= v && v <= u8::MAX as i64 { Some(Scalar::U8(v as u8)) } else { None }
            } else {
                None
            }
        },
        ParameterValue::Float(f) => {
            if same_text(name, "f64") {
                Some(Scalar::F64(f.bits))
            } else if same_text(name, "f32") {
                match f.narrowed {
                    Some(n) => Some(Scalar::F32(n)),
                    None => None,
                }
            } else {
                None
            }
        },
        ParameterValue::Str(s) => if same_text(name, "String") { Some(Scalar::Str(s.clone())) } else { None },
    }
}

fn conversion_onto(literal: &ParameterValue, source: &DataType, target: &DataType) -> (found: Option<(Scalar, Conversion)>)
    ensures
        found == source_conversion(*literal, *source, *target, 0),
{
    let mut k: usize = 0;
    while k < source.conversions.len()
        invariant
            k <= source.conversions@.len(),
            source_conversion(*literal, *source, *target, 0) == source_conversion(*literal, *source, *target, k as int),
        decreases source.conversions@.len() - k,
    {
        let conversion = source.conversions[k];
        if conversion.target == target.id {
            match materialize(literal, source.name.as_str()) {
                Some(value) => {
                    return Some((value, conversion));
                },
                None => {},
            }
        }
        k = k + 1;
    }
    None
}

fn bridge_onto(registry: &Registry, literal: &ParameterValue, target: &DataType, sources: &Vec<String>) -> (found: Option<(Scalar, Conversion)>)
    requires
        registry.wf(),
    ensures
        found == source_bridge(*registry, *literal, *target, sources@.map_values(|name: String| name@), 0),
{
    let ghost names = sources@.map_values(|name: String| name@);
    let mut j: usize = 0;
    while j < sources.len()
        invariant
            registry.wf(),
            names == sources@.map_values(|name: String| name@),
            j <= sources@.len(),
            source_bridge(*registry, *literal, *target, names, 0) == source_bridge(*registry, *literal, *target, names, j as int),
        decreases sources@.len() - j,
    {
        assert(names[j as int] == sources@[j as int]@);
        match registry.data_type(sources[j].as_str()) {
            Some(source) => {
                match conversion_onto(literal, source, target) {
                    Some(found) => {
                        return Some(found);
                    },
                    None => {},
                }
            },
            None => {},
        }
        j = j + 1;
    }
    None
}

/// Resolve a parameter literal against an input port's declared union,
/// under the connection rules: the literal's YAML scalar kind stands in as
/// the upstream side. Returns the resolved data type, the literal as the
/// scalar it materializes as, and the declared conversion that value rides
/// where one bridged — applied where the value is fed.
pub fn resolve_literal(literal: &ParameterValue, declared: &Vec<String>, registry: &Registry) -> (found: Option<(Resolved, Scalar, Option<Conversion>)>)
    requires
        registry.wf(),
    ensures
        found == literal_resolution(*registry, *literal, declared@),
{
    let kind = kind_of(literal);
    let mut i: usize = 0;
    while i < declared.len()
        invariant
            registry.wf(),
            kind == literal_kind(*literal),
            i <= declared@.len(),
            exact_literal(*registry, *literal, declared@, 0) == exact_literal(*registry, *literal, declared@, i as int),
        decreases declared@.len() - i,
    {
        match registry.data_type(declared[i].as_str()) {
            Some(data_type) => {
                let matches_kind = match kind_of_name(data_type.name.as_str()) {
                    Some(named) => named == kind,
                    None => false,
                };
                if matches_kind {
                    match materialize(literal, data_type.name.as_str()) {
                        Some(value) => {
                            return Some((resolved(data_type), value, None));
                        },
                        None => {},
                    }
                }
            },
            None => {},
        }
        i = i + 1;
    }
    let sources = names_of_kind(kind);
    let mut i: usize = 0;
    while i < declared.len()
        invariant
            registry.wf(),
            kind == literal_kind(*literal),
            sources@.map_values(|name: String| name@) == kind_names(kind),
            i <= declared@.len(),
            exact_literal(*registry, *literal, declared@, 0) is None,
            bridged_literal(*registry, *literal, declared@, 0) == bridged_literal(*registry, *literal, declared@, i as int),
        decreases declared@.len() - i,
    {
        match registry.data_type(declared[i].as_str()) {
            Some(target) => {
                match bridge_onto(registry, literal, target, &sources) {
                    Some((value, conversion)) => {
                        return Some((resolved(target), value, Some(conversion)));
                    },
                    None => {},
                }
            },
            None => {},
        }
        i = i + 1;
    }
    None
}

} // verus!
