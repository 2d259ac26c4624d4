//! Type identities.
//!
//! A field is bound to one concrete type, and the only thing this crate ever
//! does with that type is to compare its identity with another one.

use std::any::TypeId;
use vstd::prelude::*;

verus! {

/// `std::any::TypeId`, an opaque identifier of a `'static` type. Nothing is
/// assumed about what is inside it.
#[verifier::external_type_specification]
#[verifier::external_body]
pub struct ExTypeId(TypeId);

/// Calls `==` of `std::any::TypeId`. The standard library documents a
/// `TypeId` as a globally unique identifier of a type, so the claim is that
/// two identifiers compare equal exactly when they are the same value.
#[verifier::external_body]
pub(crate) fn same_type(a: &TypeId, b: &TypeId) -> (same: bool)
    ensures
        same == (*a == *b),
{
    a == b
}

} // verus!
