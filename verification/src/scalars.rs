//! The base scalar set core ships, declared as ordinary data types: the
//! twelve scalars with their fixed ids, the named widenings `i16`→`i32`,
//! `f32`→`f64` and `i32`→`f64`, and each scalar's appearance — a colour and
//! a port shape. No conversion to `String` is declared anywhere.

use vstd::prelude::*;
use crate::literal::Scalar;
use crate::model::{Conversion, DataType, MetaValue};

verus! {

pub const I8: u128 = 0x1;
pub const I16: u128 = 0x2;
pub const I32: u128 = 0x3;
pub const I64: u128 = 0x4;
pub const U8: u128 = 0x5;
pub const U16: u128 = 0x6;
pub const U32: u128 = 0x7;
pub const U64: u128 = 0x8;
pub const F32: u128 = 0x9;
pub const F64: u128 = 0xa;
pub const BOOL: u128 = 0xb;
pub const STRING: u128 = 0xc;

/// Whether a data type id names one of the base scalars.
pub open spec fn base_scalar(id: u128) -> bool {
    I8 <= id <= STRING
}

/// Whether a data type id names one of the base scalars core ships.
pub fn is_base_scalar(id: u128) -> (base: bool)
    ensures
        base == base_scalar(id),
{
    id == I8 || id == I16 || id == I32 || id == I64 || id == U8 || id == U16 || id == U32
        || id == U64 || id == F32 || id == F64 || id == BOOL || id == STRING
}

/// The declaration of one base scalar: its id, name, the conversions it
/// declares, and its colour and shape.
pub open spec fn declares(data_type: DataType, id: u128, name: Seq<char>, targets: Seq<u128>, color: Seq<char>, shape: Seq<char>) -> bool {
    &&& data_type.id == id
    &&& data_type.name@ == name
    &&& data_type.conversions@.len() == targets.len()
    &&& forall|k: int| 0 <= k < targets.len() ==> (#[trigger] data_type.conversions@[k]) == (Conversion { source: id, target: targets[k] })
    &&& data_type.meta@.len() == 2
    &&& data_type.meta@[0].0@ == "color"@
    &&& data_type.meta@[0].1 matches MetaValue::Str(c) && c@ == color
    &&& data_type.meta@[1].0@ == "shape"@
    &&& data_type.meta@[1].1 matches MetaValue::Str(s) && s@ == shape
    &&& data_type.ui is None
}

fn scalar(id: u128, name: &str, targets: Vec<u128>, color: &str, shape: &str) -> (data_type: DataType)
    ensures
        declares(data_type, id, name@, targets@, color@, shape@),
{
    let mut conversions: Vec<Conversion> = Vec::new();
    let mut k: usize = 0;
    while k < targets.len()
        invariant
            k <= targets.len(),
            conversions@.len() == k,
            forall|j: int| 0 <= j < k ==> (#[trigger] conversions@[j]) == (Conversion { source: id, target: targets@[j] }),
        decreases targets.len() - k,
    {
        conversions.push(Conversion { source: id, target: targets[k] });
        k = k + 1;
    }
    let mut meta: Vec<(String, MetaValue)> = Vec::new();
    meta.push(("color".to_owned(), MetaValue::Str(color.to_owned())));
    meta.push(("shape".to_owned(), MetaValue::Str(shape.to_owned())));
    DataType { id, name: name.to_owned(), conversions, meta, ui: None }
}

/// The twelve base scalars, in id order: the integer ones square and blue,
/// the float ones square and purple, `bool` round and amber, `String` round
/// and green.
pub fn base_scalars() -> (declared: Vec<DataType>)
    ensures
        declared@.len() == 12,
        declares(declared@[0], I8, "i8"@, seq![], "#2d72d2"@, "square"@),
        declares(declared@[1], I16, "i16"@, seq![I32], "#2d72d2"@, "square"@),
        declares(declared@[2], I32, "i32"@, seq![F64], "#2d72d2"@, "square"@),
        declares(declared@[3], I64, "i64"@, seq![], "#2d72d2"@, "square"@),
        declares(declared@[4], U8, "u8"@, seq![], "#2d72d2"@, "square"@),
        declares(declared@[5], U16, "u16"@, seq![], "#2d72d2"@, "square"@),
        declares(declared@[6], U32, "u32"@, seq![], "#2d72d2"@, "square"@),
        declares(declared@[7], U64, "u64"@, seq![], "#2d72d2"@, "square"@),
        declares(declared@[8], F32, "f32"@, seq![F64], "#9d3f9d"@, "square"@),
        declares(declared@[9], F64, "f64"@, seq![], "#9d3f9d"@, "square"@),
        declares(declared@[10], BOOL, "bool"@, seq![], "#d1820c"@, "circle"@),
        declares(declared@[11], STRING, "String"@, seq![], "#238551"@, "circle"@),
{
    let numeric = "#2d72d2";
    let float = "#9d3f9d";
    let flag = "#d1820c";
    let text = "#238551";
    let square = "square";
    let round = "circle";
    let mut declared: Vec<DataType> = Vec::new();
    declared.push(scalar(I8, "i8", vec![], numeric, square));
    declared.push(scalar(I16, "i16", vec![I32], numeric, square));
    declared.push(scalar(I32, "i32", vec![F64], numeric, square));
    declared.push(scalar(I64, "i64", vec![], numeric, square));
    declared.push(scalar(U8, "u8", vec![], numeric, square));
    declared.push(scalar(U16, "u16", vec![], numeric, square));
    declared.push(scalar(U32, "u32", vec![], numeric, square));
    declared.push(scalar(U64, "u64", vec![], numeric, square));
    declared.push(scalar(F32, "f32", vec![F64], float, square));
    declared.push(scalar(F64, "f64", vec![], float, square));
    declared.push(scalar(BOOL, "bool", vec![], flag, round));
    declared.push(scalar(STRING, "String", vec![], text, round));
    declared
}

/// The `i16`→`i32` widening: the same number, one size up. None for a
/// value that is not an `i16`.
pub fn widen_i16(value: &Scalar) -> (widened: Option<Scalar>)
    ensures
        match *value {
            Scalar::I16(v) => widened == Some(Scalar::I32(v as i32)),
            _ => widened is None,
        },
{
    match value {
        Scalar::I16(v) => Some(Scalar::I32(*v as i32)),
        _ => None,
    }
}

} // verus!
