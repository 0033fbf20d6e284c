//! safetensors-surgery: merge PEFT LoRA adapters into base models with bounded memory.
pub mod calling;
pub mod config;
pub mod convert;
pub mod counting;
pub mod delta;
pub mod dry_run;
pub mod dtype;
pub mod error;
pub mod formula;
pub mod header;
pub mod indexing;
pub mod io;
pub mod json;
pub mod mapped;
pub mod matching;
pub mod merge;
pub mod names;
pub mod numerics;
pub mod process;
pub mod reading;
pub mod refusing;
pub mod rounding;
pub mod shard;
pub mod sink;
pub mod sorted;
pub mod split;
pub mod stats;
pub mod text;
pub mod tiling;
pub mod whole;

pub use config::{AdapterConfig, BiasMode};
pub use dry_run::{dry_run_info, DryRunInfo};
pub use dtype::Dtype;
pub use error::{IoError, IoErrorKind, Result, SurgeryError};
pub use io::merge_adapter;
pub use stats::MergeStats;
