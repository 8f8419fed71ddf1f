//! An append-only, layered triple store.
//!
//! A layer is an immutable delta of triple additions and removals over its
//! parent; a chain of layers composes into one logical set of triples. A
//! database is a versioned label that points at a head layer.
pub mod error;
pub mod triple;
pub mod triple_set;
pub mod dictionary;
pub mod chain;
pub mod layer;
pub mod lookup;
pub mod builder;
pub mod label;
pub mod store;

pub use builder::LayerBuilder;
pub use error::StoreError;
pub use label::{
    label_file_contents, name_to_hex, parse_label_file, swapped_label, Label, MemoryLabelStore,
};
pub use layer::{Layer, LayerType};
pub use lookup::{ObjectLookup, SubjectLookup, SubjectPredicateLookup};
pub use store::{open_memory_store, Database, DatabaseLayer, DatabaseLayerBuilder, Store};
pub use triple::{IdTriple, ObjectType, PartiallyResolvedTriple, PossiblyResolved, StringTriple};
