//! The two families of failure: a registry that breaks its own rules, and a
//! document that does not fit the registry.

use vstd::prelude::*;

verus! {

/// A registry whose declarations collide. Such a registry is a programming
/// error of the modules that declared the fields, found before any document
/// is read.
#[derive(Debug, PartialEq, Eq)]
pub enum RegistryError {
    /// The named field was declared by more than one registration.
    DuplicateField(&'static str),
    /// The named field was given a concrete type that an earlier
    /// registration already uses.
    DuplicateType(&'static str),
}

/// A document that cannot populate the registered fields. `E` is the error
/// that a parse routine reports.
#[derive(Debug, PartialEq, Eq)]
pub enum DocumentError<E> {
    /// The document holds the named field more than once.
    DuplicateField(&'static str),
    /// The document ended without the named field.
    MissingField(&'static str),
    /// The parse routine of the named field rejected its value.
    FieldDeserializationFailed(&'static str, E),
    /// The root of the document is not a map.
    UnexpectedDocumentShape,
}

} // verus!
