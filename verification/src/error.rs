//! What can go wrong in a merge.

use crate::text::{joined_decimals, push_decimals};
use vstd::prelude::*;

verus! {

/// The kinds of I/O failure that are told apart.
#[derive(Clone, Copy, PartialEq, Eq, Structural, Debug)]
pub enum IoErrorKind {
    NotFound,
    Other,
}

/// An I/O failure: its kind and what is said of it.
#[derive(Debug)]
pub struct IoError {
    pub kind: IoErrorKind,
    pub message: String,
}

/// Errors that can occur during safetensors merge operations.
#[derive(Debug)]
pub enum SurgeryError {
    Io(IoError),
    Json(String),
    Safetensors(String),
    TensorNotFound { name: String, location: String },
    ShapeMismatch { name: String, expected: Vec<usize>, got: Vec<usize> },
    UnsupportedDtype { name: String, dtype: String },
    InvalidConfig(String),
    MissingAdapterTensor { module: String },
    ShardingError(String),
}

pub type Result<T> = core::result::Result<T, SurgeryError>;

/// What an error says, with texts and lists as sequences.
pub enum Fault {
    Io { kind: IoErrorKind, message: Seq<char> },
    Json(Seq<char>),
    Safetensors(Seq<char>),
    TensorNotFound { name: Seq<char>, location: Seq<char> },
    ShapeMismatch { name: Seq<char>, expected: Seq<usize>, got: Seq<usize> },
    UnsupportedDtype { name: Seq<char>, dtype: Seq<char> },
    InvalidConfig(Seq<char>),
    MissingAdapterTensor { module: Seq<char> },
    ShardingError(Seq<char>),
}

impl View for SurgeryError {
    type V = Fault;

    open spec fn view(&self) -> Fault {
        match self {
            SurgeryError::Io(error) => Fault::Io { kind: error.kind, message: error.message@ },
            SurgeryError::Json(text) => Fault::Json(text@),
            SurgeryError::Safetensors(text) => Fault::Safetensors(text@),
            SurgeryError::TensorNotFound { name, location } => Fault::TensorNotFound {
                name: name@,
                location: location@,
            },
            SurgeryError::ShapeMismatch { name, expected, got } => Fault::ShapeMismatch {
                name: name@,
                expected: expected@,
                got: got@,
            },
            SurgeryError::UnsupportedDtype { name, dtype } => Fault::UnsupportedDtype {
                name: name@,
                dtype: dtype@,
            },
            SurgeryError::InvalidConfig(text) => Fault::InvalidConfig(text@),
            SurgeryError::MissingAdapterTensor { module } => Fault::MissingAdapterTensor {
                module: module@,
            },
            SurgeryError::ShardingError(text) => Fault::ShardingError(text@),
        }
    }
}

/// The message for a fault.
pub open spec fn fault_message(fault: Fault) -> Seq<char> {
    match fault {
        Fault::Io { kind: _, message } => "I/O error: "@ + message,
        Fault::Json(text) => "JSON parse error: "@ + text,
        Fault::Safetensors(text) => "safetensors error: "@ + text,
        Fault::TensorNotFound { name, location } => "tensor '"@ + name + "' not found in "@
            + location,
        Fault::ShapeMismatch { name, expected, got } => "shape mismatch for tensor '"@ + name
            + "': expected ["@ + joined_decimals(expected, ", "@) + "], got ["@ + joined_decimals(
            got,
            ", "@,
        ) + "]"@,
        Fault::UnsupportedDtype { name, dtype } => "unsupported dtype '"@ + dtype
            + "' for tensor '"@ + name + "'; only F16, BF16, and F32 are supported"@,
        Fault::InvalidConfig(text) => "invalid adapter config: "@ + text,
        Fault::MissingAdapterTensor { module } => "adapter targets module '"@ + module
            + "' but no matching tensor found in adapter file"@,
        Fault::ShardingError(text) => "sharding error: "@ + text,
    }
}

impl SurgeryError {
    /// What is said of the error to a user.
    pub fn message(&self) -> (r: String)
        ensures
            r@ == fault_message(self@),
    {
        let mut r = String::new();
        match self {
            SurgeryError::Io(error) => {
                r.append("I/O error: ");
                r.append(error.message.as_str());
            },
            SurgeryError::Json(text) => {
                r.append("JSON parse error: ");
                r.append(text.as_str());
            },
            SurgeryError::Safetensors(text) => {
                r.append("safetensors error: ");
                r.append(text.as_str());
            },
            SurgeryError::TensorNotFound { name, location } => {
                r.append("tensor '");
                r.append(name.as_str());
                r.append("' not found in ");
                r.append(location.as_str());
            },
            SurgeryError::ShapeMismatch { name, expected, got } => {
                r.append("shape mismatch for tensor '");
                r.append(name.as_str());
                r.append("': expected [");
                push_decimals(&mut r, expected.as_slice(), ", ");
                r.append("], got [");
                push_decimals(&mut r, got.as_slice(), ", ");
                r.append("]");
            },
            SurgeryError::UnsupportedDtype { name, dtype } => {
                r.append("unsupported dtype '");
                r.append(dtype.as_str());
                r.append("' for tensor '");
                r.append(name.as_str());
                r.append("'; only F16, BF16, and F32 are supported");
            },
            SurgeryError::InvalidConfig(text) => {
                r.append("invalid adapter config: ");
                r.append(text.as_str());
            },
            SurgeryError::MissingAdapterTensor { module } => {
                r.append("adapter targets module '");
                r.append(module.as_str());
                r.append("' but no matching tensor found in adapter file");
            },
            SurgeryError::ShardingError(text) => {
                r.append("sharding error: ");
                r.append(text.as_str());
            },
        }
        assert(r@ =~= fault_message(self@));
        r
    }
}

} // verus!
