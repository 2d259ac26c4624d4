//! Configuration assembled from independently declared fields.
//!
//! Every module of a program declares the fields it needs as a
//! [`Registration`]: a name, the identity of the field's concrete type and a
//! routine that parses one document value into a type-erased value. Nothing
//! enumerates the fields in one place. At start-up the declarations are
//! gathered and validated as a [`Registry`], one forward pass over the
//! top-level entries of a document fills a [`Store`], and a [`Singleton`]
//! holds the finished store from then on.
//!
//! - [`registry`]: registrations, and the two rules of a registry: no field
//!   name twice, no concrete type twice.
//! - [`engine`]: the pass, step by step, for documents that arrive as a
//!   stream.
//! - [`pass`]: the meaning of a whole pass, and [`deserialize`] for documents
//!   held in memory.
//! - [`store`]: the store, keyed by field name, and the typed read
//!   [`store_get`].
//! - [`singleton`]: the write-once holder, [`init`] and the read
//!   [`configured`].
//! - [`laws`]: what holds of every registry and every document.
//!
//! The crate is generic in the erased value `V`, in the parse routine `P`, in
//! the value `W` that a routine parses and in its error `E`: it never looks
//! inside any of them.

pub mod identity;
pub mod error;
pub mod registry;
pub mod store;
pub mod engine;
pub mod pass;
pub mod laws;
pub mod singleton;

pub use error::{DocumentError, RegistryError};
pub use engine::{Engine, Step};
pub use registry::{Registration, Registry};
pub use pass::{deserialize, deserialize_entries, Document};
pub use singleton::{configured, init, Singleton};
pub use store::{store_get, Entry, Store};
