//! The holder of the finished configuration.
//!
//! A holder starts empty, is filled at most once and is only read from then
//! on. An attempt to fill it again is reported and changes nothing.

use crate::error::DocumentError;
use crate::pass::{callable, deserialize, deserialized, entries_of, produced, Document};
use crate::registry::Registry;
use crate::store::{store_get, typed, Entry, Store};
use std::any::TypeId;
use vstd::prelude::*;

verus! {

/// A cell that is written once.
pub struct Singleton<T> {
    slot: Option<T>,
}

impl<T> View for Singleton<T> {
    type V = Option<T>;

    closed spec fn view(&self) -> Option<T> {
        self.slot
    }
}

/// What becomes of a holder with content `held` when `value` is published,
/// and what the publisher is told: an empty holder takes the value, a full
/// one keeps what it has and hands the value back.
pub open spec fn published<T>(held: Option<T>, value: T) -> (Option<T>, Result<(), T>) {
    match held {
        None => (Some(value), Ok(())),
        Some(_) => (held, Err(value)),
    }
}

impl<T> Singleton<T> {
    /// An empty holder.
    pub fn new() -> (holder: Self)
        ensures
            holder@ is None,
    {
        Singleton { slot: None }
    }

    /// Publishes `value` if nothing has been published before. Otherwise the
    /// holder stays as it is and the value comes back as the error.
    pub fn publish(&mut self, value: T) -> (made: Result<(), T>)
        ensures
            (final(self)@, made) == published(old(self)@, value),
    {
        if self.slot.is_some() {
            Err(value)
        } else {
            self.slot = Some(value);
            Ok(())
        }
    }

    /// What has been published, if anything.
    pub fn get(&self) -> (held: Option<&T>)
        ensures
            match held {
                Some(value) => self@ == Some(*value),
                None => self@ is None,
            },
    {
        self.slot.as_ref()
    }

    /// Tells whether something has been published.
    pub fn is_set(&self) -> (set: bool)
        ensures
            set == self@ is Some,
    {
        self.slot.is_some()
    }
}

/// Deserializes `document` against `registry` and publishes the store in
/// `holder`, which has to be empty: to initialize twice is a programming
/// error. It is all or nothing: a document that is rejected leaves the holder
/// empty.
pub fn init<W, V, E, P>(
    holder: &mut Singleton<Store<V>>,
    registry: &Registry<P>,
    document: Document<W>,
) -> (made: Result<(), DocumentError<E>>) where P: Fn(W) -> Result<V, E>
    requires
        old(holder)@ is None,
        registry.wf(),
        callable::<P, W, V, E>(registry@),
    ensures
        match document {
            Document::Other => initialized::<V, E>(
                Err(DocumentError::UnexpectedDocumentShape),
                *final(holder),
                made,
            ),
            Document::Entries(entries) => exists|outcomes: Seq<Result<V, E>>| #[trigger]
                produced(registry@, entries@, outcomes) && initialized(
                    deserialized(registry@, entries_of(entries@, outcomes)),
                    *final(holder),
                    made,
                ),
        },
{
    match deserialize(registry, document) {
        Ok(store) => {
            let _ = holder.publish(store);
            Ok(())
        },
        Err(e) => Err(e),
    }
}

/// The configured value of `field`, for a reader that expects it to be of
/// the type identified by `type_id`. There is none before a store has been
/// published, and none that [`store_get`] would not hand out of the
/// published store.
pub fn configured<'a, V>(holder: &'a Singleton<Store<V>>, field: &str, type_id: TypeId) -> (found:
    Option<&'a V>)
    ensures
        match found {
            Some(value) => holder@ is Some && typed(holder@->Some_0@, field@, type_id) == Some(
                *value,
            ),
            None => holder@ is None || typed(holder@->Some_0@, field@, type_id) is None,
        },
{
    match holder.get() {
        Some(store) => store_get(store, field, type_id),
        None => None,
    }
}

/// The holder holds the store of an accepted document, and nothing after a
/// rejected one, whose failure is reported.
pub open spec fn initialized<V, E>(
    meant: Result<Map<Seq<char>, Entry<V>>, DocumentError<E>>,
    holder: Singleton<Store<V>>,
    made: Result<(), DocumentError<E>>,
) -> bool {
    match meant {
        Ok(entries) => made is Ok && holder@ is Some && holder@->Some_0@ == entries,
        Err(e) => made == Err::<(), _>(e) && holder@ is None,
    }
}

/// Single publish. Whatever a holder holds after a first publication, it
/// holds after any later one, and every later publication is refused: only
/// the first value published to an empty holder is ever read.
pub proof fn law_single_publish<T>(held: Option<T>, first: T, second: T)
    ensures
        published(held, first).0 is Some,
        published(published(held, first).0, second) == (
            published(held, first).0,
            Err::<(), T>(second),
        ),
        published(None::<T>, first) == (Some(first), Ok::<(), T>(())),
{
}

} // verus!
