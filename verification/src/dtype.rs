//! Element types of tensors.

use crate::error::{Fault, Result, SurgeryError};
use crate::text::same_text;
use vstd::prelude::*;

verus! {

/// The element types that a safetensors file can declare.
#[allow(non_camel_case_types)]
#[derive(Clone, Copy, PartialEq, Eq, Structural, Debug)]
pub enum Dtype {
    BOOL,
    U8,
    I8,
    F8_E5M2,
    F8_E4M3,
    I16,
    U16,
    F16,
    BF16,
    I32,
    U32,
    F32,
    F64,
    I64,
    U64,
}

/// The bytes that an element takes in a file.
pub open spec fn stored_size(dtype: Dtype) -> nat {
    match dtype {
        Dtype::BOOL | Dtype::U8 | Dtype::I8 | Dtype::F8_E5M2 | Dtype::F8_E4M3 => 1,
        Dtype::I16 | Dtype::U16 | Dtype::F16 | Dtype::BF16 => 2,
        Dtype::I32 | Dtype::U32 | Dtype::F32 => 4,
        Dtype::F64 | Dtype::I64 | Dtype::U64 => 8,
    }
}

/// The bytes that an element takes in a file.
pub(crate) fn element_size(dtype: Dtype) -> (r: usize)
    ensures
        r == stored_size(dtype),
{
    match dtype {
        Dtype::BOOL | Dtype::U8 | Dtype::I8 | Dtype::F8_E5M2 | Dtype::F8_E4M3 => 1,
        Dtype::I16 | Dtype::U16 | Dtype::F16 | Dtype::BF16 => 2,
        Dtype::I32 | Dtype::U32 | Dtype::F32 => 4,
        Dtype::F64 | Dtype::I64 | Dtype::U64 => 8,
    }
}

/// Whether tensors of this type can be merged: the floating-point types of sixteen and of
/// thirty-two bits.
pub open spec fn mergeable(dtype: Dtype) -> bool {
    dtype == Dtype::F16 || dtype == Dtype::BF16 || dtype == Dtype::F32
}

/// Whether tensors of this type can be merged.
pub(crate) fn is_mergeable(dtype: Dtype) -> (r: bool)
    ensures
        r == mergeable(dtype),
{
    matches!(dtype, Dtype::F16 | Dtype::BF16 | Dtype::F32)
}

/// The name of an element type.
pub open spec fn dtype_name(dtype: Dtype) -> Seq<char> {
    match dtype {
        Dtype::BOOL => "BOOL"@,
        Dtype::U8 => "U8"@,
        Dtype::I8 => "I8"@,
        Dtype::F8_E5M2 => "F8_E5M2"@,
        Dtype::F8_E4M3 => "F8_E4M3"@,
        Dtype::I16 => "I16"@,
        Dtype::U16 => "U16"@,
        Dtype::F16 => "F16"@,
        Dtype::BF16 => "BF16"@,
        Dtype::I32 => "I32"@,
        Dtype::U32 => "U32"@,
        Dtype::F32 => "F32"@,
        Dtype::F64 => "F64"@,
        Dtype::I64 => "I64"@,
        Dtype::U64 => "U64"@,
    }
}

impl Dtype {
    /// The name of the element type.
    pub fn name(&self) -> (r: &'static str)
        ensures
            r@ == dtype_name(*self),
    {
        match self {
            Dtype::BOOL => "BOOL",
            Dtype::U8 => "U8",
            Dtype::I8 => "I8",
            Dtype::F8_E5M2 => "F8_E5M2",
            Dtype::F8_E4M3 => "F8_E4M3",
            Dtype::I16 => "I16",
            Dtype::U16 => "U16",
            Dtype::F16 => "F16",
            Dtype::BF16 => "BF16",
            Dtype::I32 => "I32",
            Dtype::U32 => "U32",
            Dtype::F32 => "F32",
            Dtype::F64 => "F64",
            Dtype::I64 => "I64",
            Dtype::U64 => "U64",
        }
    }
}

/// Element types with the same name are the same.
pub proof fn lemma_dtype_names_differ(a: Dtype, b: Dtype)
    requires
        dtype_name(a) == dtype_name(b),
    ensures
        a == b,
{
    reveal_strlit("BOOL");
    reveal_strlit("U8");
    reveal_strlit("I8");
    reveal_strlit("F8_E5M2");
    reveal_strlit("F8_E4M3");
    reveal_strlit("I16");
    reveal_strlit("U16");
    reveal_strlit("F16");
    reveal_strlit("BF16");
    reveal_strlit("I32");
    reveal_strlit("U32");
    reveal_strlit("F32");
    reveal_strlit("F64");
    reveal_strlit("I64");
    reveal_strlit("U64");
    let x = dtype_name(a);
    let y = dtype_name(b);
    assert(x.len() == y.len());
    assert(x[0] == y[0]);
    assert(x[1] == y[1]);
    if x.len() == 7 {
        assert(x[4] == y[4]);
    }
}

/// The element type of a name.
pub(crate) fn dtype_named(name: &str) -> (r: Option<Dtype>)
    ensures
        r matches Some(dtype) ==> dtype_name(dtype) == name@,
        forall|dtype: Dtype| #[trigger] dtype_name(dtype) == name@ ==> r == Some(dtype),
{
    let all = [
        Dtype::BOOL,
        Dtype::U8,
        Dtype::I8,
        Dtype::F8_E5M2,
        Dtype::F8_E4M3,
        Dtype::I16,
        Dtype::U16,
        Dtype::F16,
        Dtype::BF16,
        Dtype::I32,
        Dtype::U32,
        Dtype::F32,
        Dtype::F64,
        Dtype::I64,
        Dtype::U64,
    ];
    for i in 0..15
        invariant
            forall|k: int| 0 <= k < i ==> dtype_name(#[trigger] all@[k]) != name@,
    {
        if same_text(all[i].name(), name) {
            proof {
                assert forall|dtype: Dtype| #[trigger] dtype_name(dtype) == name@ implies dtype
                    == all@[i as int] by {
                    lemma_dtype_names_differ(dtype, all@[i as int]);
                }
            }
            return Some(all[i]);
        }
    }
    proof {
        assert forall|dtype: Dtype| #[trigger] dtype_name(dtype) != name@ by {
            assert(exists|k: int| 0 <= k < 15 && #[trigger] all@[k] == dtype) by {
                assert(all@[0] == Dtype::BOOL && all@[1] == Dtype::U8 && all@[2] == Dtype::I8
                    && all@[3] == Dtype::F8_E5M2 && all@[4] == Dtype::F8_E4M3 && all@[5]
                    == Dtype::I16 && all@[6] == Dtype::U16 && all@[7] == Dtype::F16 && all@[8]
                    == Dtype::BF16 && all@[9] == Dtype::I32 && all@[10] == Dtype::U32 && all@[11]
                    == Dtype::F32 && all@[12] == Dtype::F64 && all@[13] == Dtype::I64 && all@[14]
                    == Dtype::U64);
            }
        }
    }
    None
}

/// The fault for a tensor whose elements cannot be merged.
pub open spec fn unsupported(name: Seq<char>, dtype: Dtype) -> Fault {
    Fault::UnsupportedDtype { name, dtype: dtype_name(dtype) }
}

/// The bytes that an element of a mergeable type takes.
pub(crate) fn merge_size(dtype: Dtype, name: &str) -> (r: Result<usize>)
    ensures
        match r {
            Ok(size) => mergeable(dtype) && size == stored_size(dtype),
            Err(error) => !mergeable(dtype) && error@ == unsupported(name@, dtype),
        },
{
    match dtype {
        Dtype::F16 | Dtype::BF16 => Ok(2),
        Dtype::F32 => Ok(4),
        _ => Err(
            SurgeryError::UnsupportedDtype {
                name: name.to_owned(),
                dtype: dtype.name().to_owned(),
            },
        ),
    }
}

/// The bytes that an element takes in the output; an error for a type that is not merged.
pub fn dtype_byte_size(dtype: Dtype) -> (r: Result<usize>)
    ensures
        match r {
            Ok(size) => mergeable(dtype) && size == stored_size(dtype),
            Err(error) => !mergeable(dtype) && error@ == unsupported("unknown"@, dtype),
        },
{
    merge_size(dtype, "unknown")
}

/// What the output's header calls an element type. The eight-bit floating-point types have no
/// name of their own there.
pub open spec fn header_name(dtype: Dtype) -> Seq<char> {
    match dtype {
        Dtype::F8_E5M2 | Dtype::F8_E4M3 => "F32"@,
        _ => dtype_name(dtype),
    }
}

/// What the output's header calls an element type.
pub fn dtype_to_string(dtype: Dtype) -> (r: &'static str)
    ensures
        r@ == header_name(dtype),
{
    match dtype {
        Dtype::F8_E5M2 | Dtype::F8_E4M3 => "F32",
        _ => dtype.name(),
    }
}

} // verus!
