//! An embedded typed object store over a sorted key/value engine.
//!
//! Entities are records stored under the byte encoding of their key, one
//! named tree per entity type.  On top of plain storage the crate keeps a
//! relation graph (parent/child, sibling and free named relations) and
//! enforces per-edge deletion policies when an entity is removed.

use vstd::prelude::*;

pub mod adopt;
pub mod children;
pub mod codec;
pub mod deletion;
pub mod entities;
pub mod entity;
pub mod import_export;
pub mod keys;
pub mod kv;
pub mod query_builder;
pub mod relate;
pub mod relation;

pub use adopt::AdoptOps;
pub use children::{AutoIncrementEntity, ChildOps, SiblingOps};
pub use deletion::RemoveOps;
pub use entities::{ChildEntity1, ChildEntity2, Entity1, Entity2, Entity3, GrandChildEntity};
pub use entity::{Entity, EntityOps};
pub use import_export::JsonWrapper;
pub use keys::AsBytes;
pub use kv::Store;
pub use query_builder::QueryBuilder;
pub use relate::RelationOps;
pub use relation::{EntityRelations, FamilyDescriptor, SerRelation};

verus! {

/// How the deletion of one endpoint of a relation affects the other
/// endpoint (or the relation itself).
#[derive(Clone, Copy, Debug, PartialEq, Eq, Structural)]
pub enum DeletionBehaviour {
    /// Deleting the source also removes the target.
    Cascade,
    /// Deleting the source removes the edge and leaves the target.
    BreakLink,
    /// Deleting the source is refused while the edge exists.
    Error,
}

/// The error kinds surfaced by the store.
#[derive(Debug)]
pub enum Error {
    /// The underlying key/value engine failed.
    Engine,
    /// A stored record could not be decoded.
    Serialisation,
    /// A removal was refused because an `Error`-policy edge points at a
    /// live entity; nothing was mutated.  Carries the entity whose
    /// removal was requested and the protected entity that blocked it.
    DeletionBlocked { store: Vec<u8>, key: Vec<u8>, blocker_store: Vec<u8>, blocker_key: Vec<u8> },
    /// A relation request was invalid, e.g. a sibling save between types
    /// that do not declare each other as siblings.
    InvalidRelation,
    /// `save_next` requires a numeric root key with room left above the
    /// current maximum.
    AutoIncrementUnsupported,
    /// A type was re-registered with a different declaration than the one
    /// already persisted.
    RegistrationConflict,
    /// An entity type tried to use a tree name reserved for the store's
    /// own metadata.
    InvalidStoreName,
}

} // verus!
