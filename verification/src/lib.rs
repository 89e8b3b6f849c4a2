//! A replication-aware block-document engine.
//!
//! Documents are trees of blocks kept in a replicated store (a `yrs`
//! document). Edit intents (insert, update, delete, move) are validated and
//! decided by a verified model of the block store; the substrate only
//! records the resulting field writes and serves binary update logs.
//! Sibling order is never stored: it is derived on every read by the
//! reconciliation sorter from `parentId` / `prevId` hints together with the
//! originating device and timestamp attributes.

pub mod chain;
pub mod delta;
pub mod extract;
pub mod hostjson;
pub mod keyed;
pub mod laws;
pub mod mutation;
pub mod ops;
pub mod service;
pub mod sorting;
pub mod strutil;
pub mod types;
pub mod ydoc;

pub use chain::ChainLinker;
pub use delta::DeltaOperations;
pub use extract::UpdateOperations;
pub use ops::BlockOperations;
pub use service::DocumentService;
pub use sorting::ChainSorting;
