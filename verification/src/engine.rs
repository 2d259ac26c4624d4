//! The dispatch engine.
//!
//! A document is consumed as a forward-only stream of top-level entries. For
//! every key the engine decides what is to happen with the value that
//! follows it, and the value has to be dealt with at once: it cannot be read
//! again later. The engine therefore works in steps that the reader of the
//! document calls in turn:
//!
//! 1. [`Engine::dispatch`] on every key;
//! 2. [`Engine::parse`] (or [`Engine::fill`], where the value was parsed
//!    elsewhere) on the value of a key that is to be parsed;
//! 3. [`Engine::finish`] when the stream is exhausted.
//!
//! The first failure ends the pass: the reader stops and reports it.
//!
//! Each step is specified by a function on plain values ([`dispatch_step`],
//! [`fill_step`], [`finish_step`]); [`crate::pass`] composes them into the
//! meaning of a whole pass.

use crate::error::DocumentError;
use crate::registry::{
    lemma_position, lemma_position_holds, position, valid, Registration, Registry,
};
use crate::store::{Entry, Store};
use vstd::prelude::*;

verus! {

/// What is to happen with the value that follows a key.
#[derive(Debug, PartialEq, Eq)]
pub enum Step {
    /// The key names no registered field: the value is passed over.
    Skip,
    /// The value belongs to the registration at this place and is to be
    /// parsed by its routine.
    Parse(usize),
}

/// The decision on a key, given what has been stored so far.
pub open spec fn dispatch_step<P, V, E>(
    records: Seq<Registration<P>>,
    entries: Map<Seq<char>, Entry<V>>,
    key: Seq<char>,
) -> Result<Step, DocumentError<E>> {
    match position(records, key) {
        None => Ok(Step::Skip),
        Some(i) => if entries.contains_key(key) {
            Err(DocumentError::DuplicateField(records[i].field))
        } else {
            Ok(Step::Parse(i as usize))
        },
    }
}

/// The effect of the parse outcome for the registration at place `index`.
/// A field that is already stored is never overwritten.
pub open spec fn fill_step<P, V, E>(
    records: Seq<Registration<P>>,
    entries: Map<Seq<char>, Entry<V>>,
    index: int,
    outcome: Result<V, E>,
) -> Result<Map<Seq<char>, Entry<V>>, DocumentError<E>> {
    let record = records[index];
    if entries.contains_key(record.field@) {
        Err(DocumentError::DuplicateField(record.field))
    } else {
        match outcome {
            Ok(value) => Ok(
                entries.insert(record.field@, Entry { type_id: record.type_id, value }),
            ),
            Err(cause) => Err(DocumentError::FieldDeserializationFailed(record.field, cause)),
        }
    }
}

/// The place of the earliest among the first `n` registrations whose field
/// is not stored.
pub open spec fn first_missing<P, V>(
    records: Seq<Registration<P>>,
    entries: Map<Seq<char>, Entry<V>>,
    n: int,
) -> Option<int>
    decreases n,
{
    if n <= 0 {
        None
    } else {
        match first_missing(records, entries, n - 1) {
            Some(i) => Some(i),
            None => if entries.contains_key(records[n - 1].field@) {
                None
            } else {
                Some(n - 1)
            },
        }
    }
}

/// The result of a pass that ends with `entries` stored: every registered
/// field is required.
pub open spec fn finish_step<P, V, E>(
    records: Seq<Registration<P>>,
    entries: Map<Seq<char>, Entry<V>>,
) -> Result<Map<Seq<char>, Entry<V>>, DocumentError<E>> {
    match first_missing(records, entries, records.len() as int) {
        Some(i) => Err(DocumentError::MissingField(records[i].field)),
        None => Ok(entries),
    }
}

/// `made` and `after` are what [`fill_step`] prescribes for `before`.
pub open spec fn filled<P, V, E>(
    records: Seq<Registration<P>>,
    before: Map<Seq<char>, Entry<V>>,
    after: Map<Seq<char>, Entry<V>>,
    index: int,
    outcome: Result<V, E>,
    made: Result<(), DocumentError<E>>,
) -> bool {
    match fill_step(records, before, index, outcome) {
        Ok(entries) => made is Ok && after == entries,
        Err(e) => made == Err::<(), DocumentError<E>>(e) && after == before,
    }
}

/// `outcome` is what the parse routine of the registration at place `index`
/// makes of `input`. Where the field is already stored the routine is not
/// run, and any outcome will do: it has no effect.
pub open spec fn parsed<P, W, V, E>(
    records: Seq<Registration<P>>,
    before: Map<Seq<char>, Entry<V>>,
    index: int,
    input: W,
    outcome: Result<V, E>,
) -> bool where P: Fn(W) -> Result<V, E> {
    before.contains_key(records[index].field@) || call_ensures(
        records[index].deserialize,
        (input,),
        outcome,
    )
}

/// Every stored field is registered and carries the identity of the type
/// that its registration declares.
pub open spec fn fits<P, V>(
    records: Seq<Registration<P>>,
    entries: Map<Seq<char>, Entry<V>>,
) -> bool {
    &&& entries.dom().finite()
    &&& forall|key: Seq<char>| #[trigger]
        entries.contains_key(key) ==> match position(records, key) {
            Some(i) => entries[key].type_id == records[i].type_id,
            None => false,
        }
}

/// The state of one pass over a document: the registry that the document is
/// held against, and what has been stored so far.
#[verifier::reject_recursive_types(V)]
pub struct Engine<'r, 'a, P, V> {
    registry: &'r Registry<'a, P>,
    store: Store<V>,
}

impl<'r, 'a, P, V> View for Engine<'r, 'a, P, V> {
    type V = Map<Seq<char>, Entry<V>>;

    closed spec fn view(&self) -> Map<Seq<char>, Entry<V>> {
        self.store@
    }
}

impl<'r, 'a, P, V> Engine<'r, 'a, P, V> {
    /// The registrations that the pass is held against.
    pub closed spec fn records(&self) -> Seq<Registration<P>> {
        self.registry@
    }

    /// The invariant of an engine.
    pub closed spec fn wf(&self) -> bool {
        self.registry.wf() && fits(self.registry@, self.store@)
    }

    /// What the invariant means for the stored fields.
    pub proof fn lemma_wf(&self)
        requires
            self.wf(),
        ensures
            valid(self.records()),
            self.records().len() <= usize::MAX,
            fits(self.records(), self@),
    {
    }

    /// Starts a pass: nothing is stored yet.
    pub fn new(registry: &'r Registry<'a, P>) -> (engine: Self)
        requires
            registry.wf(),
        ensures
            engine.wf(),
            engine.records() == registry@,
            engine@ == Map::<Seq<char>, Entry<V>>::empty(),
    {
        Engine { registry, store: Store::with_capacity(registry.len()) }
    }

    /// Decides what is to happen with the value that follows `key`: it is
    /// passed over where the key names no registered field, it is a
    /// duplicate where the field is already stored, and it is to be parsed
    /// otherwise.
    pub fn dispatch<E>(&self, key: &str) -> (step: Result<Step, DocumentError<E>>)
        requires
            self.wf(),
        ensures
            step == dispatch_step::<P, V, E>(self.records(), self@, key@),
    {
        match self.registry.position(key) {
            None => Ok(Step::Skip),
            Some(i) => {
                proof {
                    lemma_position_holds(self.registry@, key@);
                }
                if self.store.contains(key) {
                    Err(DocumentError::DuplicateField(self.registry.get(i).field))
                } else {
                    Ok(Step::Parse(i))
                }
            },
        }
    }

    /// Takes in the outcome of parsing the value of the registration at
    /// place `index`: a parsed value is stored under the field's name with
    /// the identity that the registration declares, a parse error fails the
    /// pass. Nothing is stored over a field that is already there.
    pub fn fill<E>(&mut self, index: usize, outcome: Result<V, E>) -> (made: Result<
        (),
        DocumentError<E>,
    >)
        requires
            old(self).wf(),
            index < old(self).records().len(),
        ensures
            final(self).wf(),
            final(self).records() == old(self).records(),
            filled(old(self).records(), old(self)@, final(self)@, index as int, outcome, made),
    {
        let record = self.registry.get(index);
        if self.store.contains(record.field) {
            return Err(DocumentError::DuplicateField(record.field));
        }
        match outcome {
            Ok(value) => {
                self.store.insert(record.field, record.type_id, value);
                proof {
                    lemma_position(self.registry@, index as int);
                }
                Ok(())
            },
            Err(cause) => Err(DocumentError::FieldDeserializationFailed(record.field, cause)),
        }
    }

    /// Runs the parse routine of the registration at place `index` on
    /// `input` and takes its outcome in, as [`Engine::fill`] does. The
    /// routine is not run for a field that is already stored.
    pub fn parse<W, E>(&mut self, index: usize, input: W) -> (made: Result<(), DocumentError<E>>)
        where P: Fn(W) -> Result<V, E>
        requires
            old(self).wf(),
            index < old(self).records().len(),
            call_requires(old(self).records()[index as int].deserialize, (input,)),
        ensures
            final(self).wf(),
            final(self).records() == old(self).records(),
            exists|outcome: Result<V, E>|
                parsed(old(self).records(), old(self)@, index as int, input, outcome)
                    && #[trigger] filled(
                    old(self).records(),
                    old(self)@,
                    final(self)@,
                    index as int,
                    outcome,
                    made,
                ),
    {
        let record = self.registry.get(index);
        if self.store.contains(record.field) {
            proof {
                let unused: Result<V, E> = arbitrary();
                assert(parsed(self.records(), self@, index as int, input, unused));
                assert(filled(
                    self.records(),
                    self@,
                    self@,
                    index as int,
                    unused,
                    Err::<(), _>(DocumentError::<E>::DuplicateField(record.field)),
                ));
            }
            return Err(DocumentError::DuplicateField(record.field));
        }
        let outcome = (record.deserialize)(input);
        proof {
            assert(parsed(self.records(), self@, index as int, input, outcome));
        }
        self.fill(index, outcome)
    }

    /// Ends the pass. Every registered field is required: the earliest
    /// registration whose field is not stored fails the pass, and the store
    /// is handed over when there is none.
    pub fn finish<E>(self) -> (made: Result<Store<V>, DocumentError<E>>)
        requires
            self.wf(),
        ensures
            match finish_step::<P, V, E>(self.records(), self@) {
                Ok(entries) => made is Ok && made->Ok_0@ == entries,
                Err(e) => made is Err && made->Err_0 == e,
            },
    {
        let n = self.registry.len();
        let mut i: usize = 0;
        while i < n
            invariant
                i <= n == self.registry@.len(),
                first_missing(self.registry@, self.store@, i as int) is None,
            decreases n - i,
        {
            let record = self.registry.get(i);
            if !self.store.contains(record.field) {
                proof {
                    lemma_missing_stays(self.registry@, self.store@, i as int + 1, n as int);
                }
                return Err(DocumentError::MissingField(record.field));
            }
            i += 1;
        }
        Ok(self.store)
    }
}

/// A field found missing among the first `n` registrations is the one found
/// among any longer prefix.
pub proof fn lemma_missing_stays<P, V>(
    records: Seq<Registration<P>>,
    entries: Map<Seq<char>, Entry<V>>,
    n: int,
    m: int,
)
    requires
        0 <= n <= m,
        first_missing(records, entries, n) is Some,
    ensures
        first_missing(records, entries, m) == first_missing(records, entries, n),
    decreases m - n,
{
    if n < m {
        lemma_missing_stays(records, entries, n, m - 1);
    }
}

} // verus!
