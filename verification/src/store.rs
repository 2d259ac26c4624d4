//! The store of parsed field values.
//!
//! The store is keyed by field name: a name holds at most one value. Values
//! of unrelated concrete types live side by side in it, each behind the same
//! erased representation `V`. What keeps them apart is the type identity
//! recorded with every value: a value is handed out only to a reader that
//! names the identity under which it was stored, so that a reader never
//! takes a value for something that it is not.

use crate::identity::same_type;
use std::any::TypeId;
use vstd::hash_map::StringHashMap;
use vstd::prelude::*;

verus! {

/// A stored value together with the identity of its concrete type.
pub struct Entry<V> {
    pub type_id: TypeId,
    pub value: V,
}

/// The value that a reader expecting `type_id` gets for `field`.
pub open spec fn typed<V>(
    entries: Map<Seq<char>, Entry<V>>,
    field: Seq<char>,
    type_id: TypeId,
) -> Option<V> {
    if entries.contains_key(field) && entries[field].type_id == type_id {
        Some(entries[field].value)
    } else {
        None
    }
}

/// A map from field name to erased value.
#[verifier::reject_recursive_types(V)]
pub struct Store<V> {
    entries: StringHashMap<Entry<V>>,
}

impl<V> View for Store<V> {
    type V = Map<Seq<char>, Entry<V>>;

    closed spec fn view(&self) -> Map<Seq<char>, Entry<V>> {
        self.entries@
    }
}

impl<V> Store<V> {
    /// An empty store.
    pub fn new() -> (store: Self)
        ensures
            store@ == Map::<Seq<char>, Entry<V>>::empty(),
    {
        Store { entries: StringHashMap::new() }
    }

    /// An empty store with room for `capacity` fields.
    pub fn with_capacity(capacity: usize) -> (store: Self)
        ensures
            store@ == Map::<Seq<char>, Entry<V>>::empty(),
    {
        Store { entries: StringHashMap::with_capacity(capacity) }
    }

    /// Stores `value` under `field`, with the identity of its type, and tells
    /// whether a value that was there before has been replaced.
    pub fn insert(&mut self, field: &str, type_id: TypeId, value: V) -> (replaced: bool)
        ensures
            final(self)@ == old(self)@.insert(field@, (Entry { type_id, value })),
            replaced == old(self)@.contains_key(field@),
    {
        let replaced = self.entries.contains_key(field);
        self.entries.insert(field.to_owned(), Entry { type_id, value });
        replaced
    }

    /// The entry stored under `field`, if there is one.
    pub fn get(&self, field: &str) -> (found: Option<&Entry<V>>)
        ensures
            match found {
                Some(entry) => self@.contains_key(field@) && *entry == self@[field@],
                None => !self@.contains_key(field@),
            },
    {
        self.entries.get(field)
    }

    /// Tells whether a value is stored under `field`.
    pub fn contains(&self, field: &str) -> (held: bool)
        ensures
            held == self@.contains_key(field@),
    {
        self.entries.contains_key(field)
    }

    /// The number of stored fields.
    pub fn len(&self) -> (n: usize)
        ensures
            n == self@.len(),
    {
        self.entries.len()
    }

    /// Tells whether nothing is stored.
    pub fn is_empty(&self) -> (empty: bool)
        ensures
            empty == self@.is_empty(),
    {
        self.entries.is_empty()
    }
}

/// The value stored under `field`, for a reader that expects it to be of the
/// type identified by `type_id`. Nothing is returned for a field that is not
/// stored, nor for one that was stored under another identity.
pub fn store_get<'a, V>(store: &'a Store<V>, field: &str, type_id: TypeId) -> (found: Option<
    &'a V,
>)
    ensures
        match found {
            Some(value) => typed(store@, field@, type_id) == Some(*value),
            None => typed(store@, field@, type_id) is None,
        },
{
    match store.get(field) {
        Some(entry) => if same_type(&entry.type_id, &type_id) {
            Some(&entry.value)
        } else {
            None
        },
        None => None,
    }
}

} // verus!
