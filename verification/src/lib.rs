//! A partitioned, schema-adaptive scan pipeline for line-delimited
//! self-describing records (one record per line, `{"name": value, ...}`).
//!
//! The pipeline turns raw row files spread across file groups into an ordered
//! sequence of typed columnar batches conforming to a caller-specified target
//! schema: extra observed fields are dropped, absent fields are null-filled, a
//! per-partition row limit is enforced, and constant partition-derived columns
//! are appended to every batch.

use vstd::prelude::*;

pub mod batch;
pub mod materialize;
pub mod parse;
pub mod plan;
pub mod producer;
pub mod schema;
pub mod stream;

verus! {

/// The error taxonomy of the scan pipeline.
///
/// Configuration errors (`InvalidPartition`, `LeafNode`, `FieldNotFound`) are
/// reported synchronously at the violating call; `MalformedRecord` and
/// `TypeMismatch` surface as the final, fatal item of a partition's batch
/// sequence.
#[derive(Clone, Copy, Debug, PartialEq, Eq, Structural)]
pub enum ScanError {
    /// A partition index that is not a valid file-group index was requested.
    InvalidPartition,
    /// An attempt was made to attach children to a leaf plan node.
    LeafNode,
    /// A schema lookup by name found no field of that name.
    FieldNotFound,
    /// A line could not be parsed as a record of the expected format.
    MalformedRecord,
    /// A parsed value cannot be reconciled with the target schema's type.
    TypeMismatch,
}

} // verus!
