//! Archiving engine for a graph of reference-counted runtime values.
//!
//! A live value graph — handles that are either inline scalars or aliases
//! of reference-counted heap blocks — is flattened into a self-contained
//! byte blob and reconstructed from it. Structural sharing survives the
//! trip: a block aliased by several handles is written once and rebuilt
//! once, with its reference count restored to the number of handles that
//! alias it.

pub mod archive;
pub mod bytes;
pub mod stash;
pub mod number;
pub mod value;
