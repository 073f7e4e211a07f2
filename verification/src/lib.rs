//! A verified catalogue of chemical structures: typed records for structures,
//! composition edges, physical properties and images, an in-memory relational
//! store that enforces their integrity rules (unique keys, delete-safety for
//! composition references, cascading deletes), a paginated keyword search, and
//! a bulk transfer pipeline that round-trips the store to delimited tables and
//! an image tree without loss.

use vstd::prelude::*;

pub mod component;
pub mod image;
pub mod laws;
pub mod links;
pub mod property;
pub mod store;
pub mod structure;
pub mod table;
pub mod text;
pub mod transfer;

verus! {

/// Failure taxonomy shared by every operation of the catalogue.
#[derive(Clone, Copy, Debug, PartialEq, Eq, Structural)]
pub enum Error {
    /// A referenced entity is absent.
    NotFound,
    /// A unique-key constraint was violated at the store.
    ConstraintViolation,
    /// A delete was blocked because the entity is still used as a component
    /// of another structure.
    ReferencedByOther,
    /// A delimited row or a value in it failed to parse into the expected
    /// record shape.
    MalformedInput,
    /// An image folder held no file during bulk import.
    EmptyImageFolder,
    /// An image folder's name is not a decimal structure id.
    InvalidImageFolder,
}

impl Error {
    /// A short human-readable description, for callers that display failures.
    pub fn message(&self) -> &'static str {
        match self {
            Error::NotFound => "the referenced entity was not found",
            Error::ConstraintViolation => "a unique-key constraint was violated",
            Error::ReferencedByOther => "the structure is still a component of another structure",
            Error::MalformedInput => "a row or value failed to parse into the expected shape",
            Error::EmptyImageFolder => "an image folder held no file",
            Error::InvalidImageFolder => "an image folder's name is not a decimal structure id",
        }
    }
}

} // verus!
