//! The meaning of a whole pass over a document.
//!
//! A document is modelled as the sequence of its top-level entries in the
//! order in which they are read. An entry is a key together with the outcome
//! that the parse routine in charge of it produces on its value; the outcome
//! of an entry that is never parsed plays no part. [`pass`] folds the steps
//! of the engine over the entries and [`deserialized`] ends the pass.
//!
//! [`deserialize`] runs a pass over a [`Document`] that is held in memory.
//! What the parse routines return is theirs to decide, so its contract
//! speaks of some outcomes that they can produce ([`produced`]) and pins the
//! result for those.

use crate::engine::{
    dispatch_step, fill_step, filled, finish_step, fits, parsed, Engine, Step,
};
use crate::error::DocumentError;
use crate::registry::{distinct_names, position, registered, Registration, Registry};
use crate::store::{Entry, Store};
use vstd::prelude::*;

verus! {

/// The effect of one entry on what has been stored so far: an entry whose
/// key names no registered field is passed over, and the outcome of any
/// other is taken in.
pub open spec fn entry_step<P, V, E>(
    records: Seq<Registration<P>>,
    entries: Map<Seq<char>, Entry<V>>,
    key: Seq<char>,
    outcome: Result<V, E>,
) -> Result<Map<Seq<char>, Entry<V>>, DocumentError<E>> {
    match position(records, key) {
        None => Ok(entries),
        Some(i) => fill_step(records, entries, i, outcome),
    }
}

/// An entry is dealt with by a dispatch on its key and, where the value is
/// to be parsed, by taking in the outcome.
pub proof fn lemma_entry_step<P, V, E>(
    records: Seq<Registration<P>>,
    entries: Map<Seq<char>, Entry<V>>,
    key: Seq<char>,
    outcome: Result<V, E>,
)
    requires
        records.len() <= usize::MAX,
    ensures
        entry_step(records, entries, key, outcome) == match dispatch_step::<P, V, E>(
            records,
            entries,
            key,
        ) {
            Err(e) => Err(e),
            Ok(Step::Skip) => Ok(entries),
            Ok(Step::Parse(i)) => fill_step(records, entries, i as int, outcome),
        },
{
}

/// What is stored after the entries of `document` have been read in order,
/// or the failure of the first entry that fails.
pub open spec fn pass<P, V, E>(
    records: Seq<Registration<P>>,
    document: Seq<(Seq<char>, Result<V, E>)>,
) -> Result<Map<Seq<char>, Entry<V>>, DocumentError<E>>
    decreases document.len(),
{
    if document.len() == 0 {
        Ok(Map::empty())
    } else {
        match pass(records, document.drop_last()) {
            Err(e) => Err(e),
            Ok(entries) => entry_step(records, entries, document.last().0, document.last().1),
        }
    }
}

/// The result of deserializing `document` against `records`.
pub open spec fn deserialized<P, V, E>(
    records: Seq<Registration<P>>,
    document: Seq<(Seq<char>, Result<V, E>)>,
) -> Result<Map<Seq<char>, Entry<V>>, DocumentError<E>> {
    match pass(records, document) {
        Err(e) => Err(e),
        Ok(entries) => finish_step(records, entries),
    }
}

/// Some entry of `document` has the key `key`.
pub open spec fn occurs<V, E>(document: Seq<(Seq<char>, Result<V, E>)>, key: Seq<char>) -> bool {
    exists|k: int| 0 <= k < document.len() && (#[trigger] document[k]).0 == key
}

/// A failure ends the pass: entries after it change nothing.
pub proof fn lemma_failure_ends_pass<P, V, E>(
    records: Seq<Registration<P>>,
    document: Seq<(Seq<char>, Result<V, E>)>,
    n: int,
)
    requires
        0 <= n <= document.len(),
        pass(records, document.take(n)) is Err,
    ensures
        pass(records, document) == pass(records, document.take(n)),
    decreases document.len() - n,
{
    if n < document.len() {
        assert(document.take(n + 1).drop_last() =~= document.take(n));
        lemma_failure_ends_pass(records, document, n + 1);
    } else {
        assert(document.take(n) =~= document);
    }
}

/// After a pass without failure, exactly the registered keys of the document
/// are stored, each with the identity that its registration declares.
pub proof fn lemma_pass_stores_registered_keys<P, V, E>(
    records: Seq<Registration<P>>,
    document: Seq<(Seq<char>, Result<V, E>)>,
)
    requires
        pass(records, document) is Ok,
    ensures
        fits(records, pass(records, document)->Ok_0),
        forall|key: Seq<char>|
            pass(records, document)->Ok_0.contains_key(key) <==> registered(records, key) && occurs(
                document,
                key,
            ),
    decreases document.len(),
{
    let entries = pass(records, document)->Ok_0;
    if document.len() == 0 {
        assert(entries.dom() =~= Set::<Seq<char>>::empty());
    } else {
        let before_doc = document.drop_last();
        let last = document.last();
        lemma_pass_stores_registered_keys(records, before_doc);
        let before = pass(records, before_doc)->Ok_0;
        assert forall|key: Seq<char>| occurs(document, key) <==> occurs(before_doc, key) || key
            == last.0 by {
            if occurs(document, key) {
                let k = choose|k: int| 0 <= k < document.len() && (#[trigger] document[k]).0 == key;
                if 0 <= k < document.len() - 1 {
                    assert(before_doc[k].0 == key);
                }
            }
            if occurs(before_doc, key) {
                let k = choose|k: int|
                    0 <= k < before_doc.len() && (#[trigger] before_doc[k]).0 == key;
                assert(0 <= k < document.len() && document[k].0 == key);
            }
            if key == last.0 {
                assert(document[document.len() - 1].0 == key);
            }
        }
        match position(records, last.0) {
            None => {},
            Some(i) => {
                assert(entries == before.insert(
                    last.0,
                    Entry { type_id: records[i].type_id, value: last.1->Ok_0 },
                ));
            },
        }
    }
}

/// The length of a sequence of registrations with distinct names is the
/// number of names.
pub proof fn lemma_count_names<P>(records: Seq<Registration<P>>)
    requires
        distinct_names(records),
    ensures
        Set::new(|key: Seq<char>| registered(records, key)).finite(),
        Set::new(|key: Seq<char>| registered(records, key)).len() == records.len(),
    decreases records.len(),
{
    let names = Set::new(|key: Seq<char>| registered(records, key));
    if records.len() == 0 {
        assert(names =~= Set::<Seq<char>>::empty());
    } else {
        let front = records.drop_last();
        let last = records.last().field@;
        lemma_count_names(front);
        let front_names = Set::new(|key: Seq<char>| registered(front, key));
        assert(!front_names.contains(last)) by {
            if registered(front, last) {
                let i = choose|i: int| 0 <= i < front.len() && (#[trigger] front[i]).field@ == last;
                assert(records[i].field@ != records[records.len() - 1].field@);
            }
        }
        assert(names =~= front_names.insert(last)) by {
            assert forall|key: Seq<char>| names.contains(key) <==> front_names.insert(
                last,
            ).contains(key) by {
                if registered(records, key) {
                    let i = choose|i: int|
                        0 <= i < records.len() && (#[trigger] records[i]).field@ == key;
                    if i < records.len() - 1 {
                        assert(front[i].field@ == key);
                    }
                }
                if registered(front, key) {
                    let i = choose|i: int|
                        0 <= i < front.len() && (#[trigger] front[i]).field@ == key;
                    assert(records[i].field@ == key);
                }
                if key == last {
                    assert(records[records.len() - 1].field@ == key);
                }
            }
        }
    }
}

/// The entries of an executable document, each with the outcome that
/// `outcomes` gives for its value.
pub open spec fn entries_of<W, V, E>(
    document: Seq<(String, W)>,
    outcomes: Seq<Result<V, E>>,
) -> Seq<(Seq<char>, Result<V, E>)> {
    Seq::new(document.len(), |k: int| (document[k].0@, outcomes[k]))
}

/// The place of the registration to whose routine the value of entry `k` is
/// handed: none where the pass has failed before, where the key names no
/// registered field, or where the field is already stored.
pub open spec fn handed<P, V, E>(
    records: Seq<Registration<P>>,
    document: Seq<(Seq<char>, Result<V, E>)>,
    k: int,
) -> Option<int> {
    match pass(records, document.take(k)) {
        Err(_) => None,
        Ok(entries) => match position(records, document[k].0) {
            None => None,
            Some(i) => if entries.contains_key(document[k].0) {
                None
            } else {
                Some(i)
            },
        },
    }
}

/// `outcomes` holds, for every value that the pass hands to a parse routine,
/// an outcome that the routine can produce on that value.
pub open spec fn produced<P, W, V, E>(
    records: Seq<Registration<P>>,
    document: Seq<(String, W)>,
    outcomes: Seq<Result<V, E>>,
) -> bool where P: Fn(W) -> Result<V, E> {
    &&& outcomes.len() == document.len()
    &&& forall|k: int|
        0 <= k < document.len() ==> match #[trigger] handed(
            records,
            entries_of(document, outcomes),
            k,
        ) {
            Some(i) => call_ensures(records[i].deserialize, (document[k].1,), outcomes[k]),
            None => true,
        }
}

/// Every parse routine of `records` may be called on every value.
pub open spec fn callable<P, W, V, E>(records: Seq<Registration<P>>) -> bool where
    P: Fn(W) -> Result<V, E>,
 {
    forall|i: int, input: W|
        0 <= i < records.len() ==> #[trigger] call_requires(records[i].deserialize, (input,))
}

/// What a result holds, with the store seen as the map that it stands for.
pub open spec fn stored<V, E>(made: Result<Store<V>, DocumentError<E>>) -> Result<
    Map<Seq<char>, Entry<V>>,
    DocumentError<E>,
> {
    match made {
        Ok(store) => Ok(store@),
        Err(e) => Err(e),
    }
}

/// A document that is held in memory.
pub enum Document<W> {
    /// A map, as the list of its top-level entries in the order in which
    /// they are to be read.
    Entries(Vec<(String, W)>),
    /// Anything that is not a map.
    Other,
}

/// Deserializes a document that is held in memory. Its root has to be a
/// map, whose entries are read as [`deserialize_entries`] reads them.
pub fn deserialize<W, V, E, P>(registry: &Registry<P>, document: Document<W>) -> (made: Result<
    Store<V>,
    DocumentError<E>,
>) where P: Fn(W) -> Result<V, E>
    requires
        registry.wf(),
        callable::<P, W, V, E>(registry@),
    ensures
        match document {
            Document::Other => stored(made) == Err::<Map<Seq<char>, Entry<V>>, _>(
                DocumentError::<E>::UnexpectedDocumentShape,
            ),
            Document::Entries(entries) => exists|outcomes: Seq<Result<V, E>>| #[trigger]
                produced(registry@, entries@, outcomes) && stored(made) == deserialized(
                    registry@,
                    entries_of(entries@, outcomes),
                ),
        },
{
    match document {
        Document::Other => Err(DocumentError::UnexpectedDocumentShape),
        Document::Entries(entries) => deserialize_entries(registry, entries),
    }
}

/// Deserializes the top-level entries of a document, in the order in which
/// they are given. The value of an entry is handed to the parse routine of
/// the registration that its key names, once and only if the pass gets that
/// far; all other values are dropped unread. The result is that of
/// [`deserialized`] on the outcomes that the routines produced.
pub fn deserialize_entries<W, V, E, P>(registry: &Registry<P>, document: Vec<(String, W)>) -> (made:
    Result<Store<V>, DocumentError<E>>) where P: Fn(W) -> Result<V, E>
    requires
        registry.wf(),
        callable::<P, W, V, E>(registry@),
    ensures
        exists|outcomes: Seq<Result<V, E>>| #[trigger]
            produced(registry@, document@, outcomes) && stored(made) == deserialized(
                registry@,
                entries_of(document@, outcomes),
            ),
{
    let ghost doc = document@;
    let ghost mut outcomes: Seq<Result<V, E>> = Seq::empty();
    let mut engine: Engine<P, V> = Engine::new(registry);
    proof {
        assert(entries_of(doc.take(0), outcomes) =~= Seq::empty());
    }
    for entry in it: document
        invariant
            it.seq() == doc,
            engine.wf(),
            engine.records() == registry@,
            callable::<P, W, V, E>(registry@),
            produced(registry@, doc.take(it.index() as int), outcomes),
            pass(registry@, entries_of(doc.take(it.index() as int), outcomes)) == Ok::<
                _,
                DocumentError<E>,
            >(engine@),
    {
        let ghost n = it.index() as int;
        let ghost before = engine@;
        let (key, input) = entry;
        proof {
            engine.lemma_wf();
            lemma_entry_step::<P, V, E>(registry@, before, key@, arbitrary());
        }
        match engine.dispatch::<E>(key.as_str()) {
            Err(e) => {
                proof {
                    lemma_extend(registry@, doc, outcomes, n, arbitrary());
                    lemma_stop(registry@, doc, outcomes.push(arbitrary()), n, e);
                }
                return Err(e);
            },
            Ok(Step::Skip) => {
                proof {
                    lemma_extend(registry@, doc, outcomes, n, arbitrary());
                    outcomes = outcomes.push(arbitrary());
                }
            },
            Ok(Step::Parse(index)) => {
                let taken = engine.parse(index, input);
                proof {
                    let outcome = choose|outcome: Result<V, E>|
                        parsed(registry@, before, index as int, input, outcome)
                            && #[trigger] filled(
                            registry@,
                            before,
                            engine@,
                            index as int,
                            outcome,
                            taken,
                        );
                    lemma_extend(registry@, doc, outcomes, n, outcome);
                    if taken is Err {
                        lemma_stop(registry@, doc, outcomes.push(outcome), n, taken->Err_0);
                    }
                    outcomes = outcomes.push(outcome);
                }
                match taken {
                    Err(e) => {
                        return Err(e);
                    },
                    Ok(()) => {},
                }
            },
        }
    }
    proof {
        assert(doc.take(doc.len() as int) =~= doc);
    }
    engine.finish()
}

/// One more entry is read: its outcome joins the outcomes of the entries
/// before it.
proof fn lemma_extend<P, W, V, E>(
    records: Seq<Registration<P>>,
    document: Seq<(String, W)>,
    outcomes: Seq<Result<V, E>>,
    n: int,
    outcome: Result<V, E>,
) where P: Fn(W) -> Result<V, E>
    requires
        0 <= n < document.len(),
        produced(records, document.take(n), outcomes),
        match pass(records, entries_of(document.take(n), outcomes)) {
            Err(_) => true,
            Ok(entries) => match position(records, document[n].0@) {
                None => true,
                Some(i) => entries.contains_key(document[n].0@) || call_ensures(
                    records[i].deserialize,
                    (document[n].1,),
                    outcome,
                ),
            },
        },
    ensures
        produced(records, document.take(n + 1), outcomes.push(outcome)),
        entries_of(document.take(n + 1), outcomes.push(outcome)).drop_last() == entries_of(
            document.take(n),
            outcomes,
        ),
        entries_of(document.take(n + 1), outcomes.push(outcome)).last() == (
            document[n].0@,
            outcome,
        ),
{
    let short = entries_of(document.take(n), outcomes);
    let long = entries_of(document.take(n + 1), outcomes.push(outcome));
    assert(long.drop_last() =~= short);
    assert(long.take(n) =~= short);
    assert forall|k: int| 0 <= k < n + 1 implies match #[trigger] handed(records, long, k) {
        Some(i) => call_ensures(
            records[i].deserialize,
            (document.take(n + 1)[k].1,),
            outcomes.push(outcome)[k],
        ),
        None => true,
    } by {
        if k < n {
            assert(long.take(k) =~= short.take(k));
            assert(long[k] == short[k]);
            assert(handed(records, long, k) == handed(records, short, k));
            assert(document.take(n)[k] == document.take(n + 1)[k]);
        }
    }
}

/// The pass has failed on the entry at place `n`: whatever follows, the
/// document is rejected with that failure.
proof fn lemma_stop<P, W, V, E>(
    records: Seq<Registration<P>>,
    document: Seq<(String, W)>,
    outcomes: Seq<Result<V, E>>,
    n: int,
    e: DocumentError<E>,
) where P: Fn(W) -> Result<V, E>
    requires
        0 <= n < document.len(),
        produced(records, document.take(n + 1), outcomes),
        pass(records, entries_of(document.take(n + 1), outcomes)) == Err::<
            Map<Seq<char>, Entry<V>>,
            _,
        >(e),
    ensures
        exists|all: Seq<Result<V, E>>| #[trigger]
            produced(records, document, all) && deserialized(records, entries_of(document, all))
                == Err::<Map<Seq<char>, Entry<V>>, _>(e),
{
    let all = Seq::new(
        document.len(),
        |k: int|
            if k <= n {
                outcomes[k]
            } else {
                outcomes[n]
            },
    );
    let short = entries_of(document.take(n + 1), outcomes);
    let long = entries_of(document, all);
    assert(long.take(n + 1) =~= short);
    lemma_failure_ends_pass(records, long, n + 1);
    assert forall|k: int| 0 <= k < document.len() implies match #[trigger] handed(
        records,
        long,
        k,
    ) {
        Some(i) => call_ensures(records[i].deserialize, (document[k].1,), all[k]),
        None => true,
    } by {
        if k <= n {
            assert(long.take(k) =~= short.take(k));
            assert(long[k] == short[k]);
            assert(handed(records, long, k) == handed(records, short, k));
            assert(document.take(n + 1)[k] == document[k]);
        } else {
            assert(long.take(k).take(n + 1) =~= short);
            lemma_failure_ends_pass(records, long.take(k), n + 1);
        }
    }
    assert(produced(records, document, all));
}

} // verus!
