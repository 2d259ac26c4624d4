//! What holds of every registry and every document.
//!
//! The laws are stated over [`deserialized`], the meaning of a whole pass,
//! and over [`conflict`], the verdict on a sequence of registrations.

use crate::engine::{first_missing, fits};
use crate::error::DocumentError;
use crate::pass::{
    deserialized, lemma_count_names, lemma_failure_ends_pass, lemma_pass_stores_registered_keys,
    occurs, pass,
};
use crate::registry::{
    conflict, distinct_names, lemma_conflict_iff_invalid, lemma_position, position, registered,
    Registration,
};
use crate::store::{typed, Entry};
use vstd::prelude::*;

verus! {

/// No registered field occurs twice in `document`, and every value of a
/// registered field parses.
pub open spec fn clean<P, V, E>(
    records: Seq<Registration<P>>,
    document: Seq<(Seq<char>, Result<V, E>)>,
) -> bool {
    &&& forall|a: int, b: int|
        0 <= a < b < document.len() && registered(records, (#[trigger] document[a]).0)
            ==> document[a].0 != (#[trigger] document[b]).0
    &&& forall|k: int|
        0 <= k < document.len() && registered(records, (#[trigger] document[k]).0)
            ==> document[k].1 is Ok
}

/// Completeness. Where every registered field occurs in the document, none
/// of them twice, and each of their values parses, the document is
/// accepted. The store then holds one entry for each registration and
/// nothing else, and every parsed value is handed out under the type that
/// its registration declares. Keys that name no registered field may occur
/// in any number: a document that holds exactly the registered fields is the
/// plainest case.
pub proof fn law_complete<P, V, E>(
    records: Seq<Registration<P>>,
    document: Seq<(Seq<char>, Result<V, E>)>,
)
    requires
        distinct_names(records),
        forall|i: int| 0 <= i < records.len() ==> occurs(document, (#[trigger] records[i]).field@),
        clean(records, document),
    ensures
        deserialized(records, document) is Ok,
        deserialized(records, document)->Ok_0.dom().finite(),
        deserialized(records, document)->Ok_0.len() == records.len(),
        forall|key: Seq<char>|
            deserialized(records, document)->Ok_0.contains_key(key) <==> registered(records, key),
        forall|i: int, k: int|
            0 <= i < records.len() && 0 <= k < document.len() && (#[trigger] document[k]).0 == (
            #[trigger] records[i]).field@ ==> typed(
                deserialized(records, document)->Ok_0,
                records[i].field@,
                records[i].type_id,
            ) == Some(document[k].1->Ok_0),
{
    lemma_clean_pass(records, document);
    lemma_pass_stores_registered_keys(records, document);
    let entries = pass(records, document)->Ok_0;
    lemma_first_missing(records, entries, records.len() as int);
    assert(first_missing(records, entries, records.len() as int) is None) by {
        if first_missing(records, entries, records.len() as int) is Some {
            let j = first_missing(records, entries, records.len() as int)->Some_0;
            assert(registered(records, records[j].field@));
            assert(occurs(document, records[j].field@));
        }
    }
    assert(deserialized(records, document) == Ok::<_, DocumentError<E>>(entries));
    assert forall|key: Seq<char>| entries.contains_key(key) <==> registered(records, key) by {
        if registered(records, key) {
            let i = choose|i: int| 0 <= i < records.len() && (#[trigger] records[i]).field@ == key;
            assert(occurs(document, records[i].field@));
        }
    }
    lemma_count_names(records);
    assert(entries.dom() =~= Set::new(|key: Seq<char>| registered(records, key)));
    assert forall|i: int, k: int|
        0 <= i < records.len() && 0 <= k < document.len() && (#[trigger] document[k]).0 == (
        #[trigger] records[i]).field@ implies typed(entries, records[i].field@, records[i].type_id)
        == Some(document[k].1->Ok_0) by {
        lemma_position(records, i);
        assert(registered(records, document[k].0));
    }
}

/// Missing-field detection. A document that lacks a registered field is
/// never accepted. Unless an entry has failed the pass before its end, the
/// failure is the missing field, and it names the earliest registration
/// whose field the document lacks.
pub proof fn law_missing_field<P, V, E>(
    records: Seq<Registration<P>>,
    document: Seq<(Seq<char>, Result<V, E>)>,
    i: int,
)
    requires
        0 <= i < records.len(),
        !occurs(document, records[i].field@),
    ensures
        deserialized(records, document) is Err,
        pass(records, document) is Err ==> deserialized(records, document)->Err_0 == pass(
            records,
            document,
        )->Err_0,
        pass(records, document) is Ok ==> exists|j: int|
            0 <= j <= i && !occurs(document, (#[trigger] records[j]).field@) && (forall|h: int|
                0 <= h < j ==> occurs(document, (#[trigger] records[h]).field@)) && deserialized(
                records,
                document,
            ) == Err::<Map<Seq<char>, Entry<V>>, _>(
                DocumentError::<E>::MissingField(records[j].field),
            ),
{
    if pass(records, document) is Ok {
        let entries = pass(records, document)->Ok_0;
        lemma_pass_stores_registered_keys(records, document);
        lemma_first_missing(records, entries, records.len() as int);
        assert(!entries.contains_key(records[i].field@));
        let j = first_missing(records, entries, records.len() as int)->Some_0;
        assert(registered(records, records[j].field@));
        assert forall|h: int| 0 <= h < j implies occurs(
            document,
            (#[trigger] records[h]).field@,
        ) by {
            assert(entries.contains_key(records[h].field@));
        }
        assert(0 <= j <= i && !occurs(document, records[j].field@));
    }
}

/// Duplicate-field rejection. A document that holds a registered field
/// twice is never accepted. Unless an entry before the second occurrence has
/// failed the pass, the failure is the duplicate field, raised at the second
/// occurrence: no entry after it is looked at.
pub proof fn law_duplicate_field<P, V, E>(
    records: Seq<Registration<P>>,
    document: Seq<(Seq<char>, Result<V, E>)>,
    a: int,
    b: int,
)
    requires
        0 <= a < b < document.len(),
        document[a].0 == document[b].0,
        registered(records, document[a].0),
    ensures
        deserialized(records, document) is Err,
        match pass(records, document.take(b)) {
            Err(e) => deserialized(records, document)->Err_0 == e,
            Ok(_) => deserialized(records, document)->Err_0 == DocumentError::<E>::DuplicateField(
                records[position(records, document[b].0)->Some_0].field,
            ),
        },
{
    let upto = document.take(b);
    let with = document.take(b + 1);
    assert(with.drop_last() =~= upto);
    assert(with.last() == document[b]);
    match pass(records, upto) {
        Err(e) => {
            lemma_failure_ends_pass(records, document, b);
        },
        Ok(entries) => {
            lemma_pass_stores_registered_keys(records, upto);
            assert(occurs(upto, document[a].0)) by {
                assert(upto[a].0 == document[a].0);
            }
            assert(entries.contains_key(document[b].0));
            assert(pass(records, with) is Err);
            lemma_failure_ends_pass(records, document, b + 1);
        },
    }
}

/// A value that does not parse. A document in which the value of a
/// registered field fails to parse is never accepted. Unless an entry before
/// it has failed the pass, the failure is that of the value, with the cause
/// that the parse routine gave, or the duplicate field where the field was
/// stored before.
pub proof fn law_failed_value<P, V, E>(
    records: Seq<Registration<P>>,
    document: Seq<(Seq<char>, Result<V, E>)>,
    k: int,
)
    requires
        0 <= k < document.len(),
        registered(records, document[k].0),
        document[k].1 is Err,
    ensures
        deserialized(records, document) is Err,
        match pass(records, document.take(k)) {
            Err(e) => deserialized(records, document)->Err_0 == e,
            Ok(entries) => deserialized(records, document)->Err_0 == if entries.contains_key(
                document[k].0,
            ) {
                DocumentError::<E>::DuplicateField(
                    records[position(records, document[k].0)->Some_0].field,
                )
            } else {
                DocumentError::<E>::FieldDeserializationFailed(
                    records[position(records, document[k].0)->Some_0].field,
                    document[k].1->Err_0,
                )
            },
        },
{
    let upto = document.take(k);
    let with = document.take(k + 1);
    assert(with.drop_last() =~= upto);
    assert(with.last() == document[k]);
    match pass(records, upto) {
        Err(e) => {
            lemma_failure_ends_pass(records, document, k);
        },
        Ok(entries) => {
            assert(pass(records, with) is Err);
            lemma_failure_ends_pass(records, document, k + 1);
        },
    }
}

/// Acceptance. A document is accepted only if every registered field occurs
/// in it, none of them twice, and each of their values parses; together with
/// [`law_complete`], exactly if. The store of an accepted document holds one
/// entry for each registration and nothing else, each with the identity that
/// its registration declares.
pub proof fn law_accepted<P, V, E>(
    records: Seq<Registration<P>>,
    document: Seq<(Seq<char>, Result<V, E>)>,
)
    requires
        distinct_names(records),
        deserialized(records, document) is Ok,
    ensures
        clean(records, document),
        forall|i: int| 0 <= i < records.len() ==> occurs(document, (#[trigger] records[i]).field@),
        fits(records, deserialized(records, document)->Ok_0),
        deserialized(records, document)->Ok_0.len() == records.len(),
        forall|key: Seq<char>|
            deserialized(records, document)->Ok_0.contains_key(key) <==> registered(records, key),
{
    assert forall|a: int, b: int|
        0 <= a < b < document.len() && registered(
            records,
            (#[trigger] document[a]).0,
        ) implies document[a].0 != (#[trigger] document[b]).0 by {
        if document[a].0 == document[b].0 {
            law_duplicate_field(records, document, a, b);
        }
    }
    assert forall|k: int|
        0 <= k < document.len() && registered(
            records,
            (#[trigger] document[k]).0,
        ) implies document[k].1 is Ok by {
        if document[k].1 is Err {
            law_failed_value(records, document, k);
        }
    }
    assert forall|i: int| 0 <= i < records.len() implies occurs(
        document,
        (#[trigger] records[i]).field@,
    ) by {
        if !occurs(document, records[i].field@) {
            law_missing_field(records, document, i);
        }
    }
    law_complete(records, document);
    lemma_pass_stores_registered_keys(records, document);
}

/// Place `k` of a document is taken by some place of the rearrangement.
pub open spec fn taken(order: Seq<int>, k: int) -> bool {
    exists|i: int| 0 <= i < order.len() && #[trigger] order[i] == k
}

/// `other` holds the entries of `document` in another order: entry `i` of
/// `other` is entry `order[i]` of `document`, and every entry of `document`
/// is taken exactly once.
pub open spec fn rearranged<V, E>(
    document: Seq<(Seq<char>, Result<V, E>)>,
    other: Seq<(Seq<char>, Result<V, E>)>,
    order: Seq<int>,
) -> bool {
    &&& other.len() == document.len()
    &&& order.len() == document.len()
    &&& forall|i: int|
        0 <= i < order.len() ==> 0 <= #[trigger] order[i] < document.len() && other[i]
            == document[order[i]]
    &&& forall|i: int, j: int|
        0 <= i < j < order.len() ==> #[trigger] order[i] != #[trigger] order[j]
    &&& forall|k: int| 0 <= k < document.len() ==> #[trigger] taken(order, k)
}

/// The order of the entries is irrelevant. A document is accepted in one
/// order exactly if it is accepted in every other, and the store is the
/// same. (Which failure a rejected document is rejected with does depend on
/// the order: it is the first.)
pub proof fn law_order_irrelevant<P, V, E>(
    records: Seq<Registration<P>>,
    document: Seq<(Seq<char>, Result<V, E>)>,
    other: Seq<(Seq<char>, Result<V, E>)>,
    order: Seq<int>,
)
    requires
        distinct_names(records),
        rearranged(document, other, order),
    ensures
        deserialized(records, other) is Ok <==> deserialized(records, document) is Ok,
        deserialized(records, document) is Ok ==> deserialized(records, other) == deserialized(
            records,
            document,
        ),
{
    if deserialized(records, document) is Ok {
        lemma_rearranged_accepted(records, document, other, order);
    }
    if deserialized(records, other) is Ok {
        let back = Seq::new(
            document.len(),
            |k: int| choose|i: int| 0 <= i < order.len() && #[trigger] order[i] == k,
        );
        assert forall|k: int| 0 <= k < back.len() implies 0 <= #[trigger] back[k] < other.len()
            && document[k] == other[back[k]] by {
            assert(taken(order, k));
        }
        assert forall|i: int, j: int| 0 <= i < j < back.len() implies #[trigger] back[i]
            != #[trigger] back[j] by {
            assert(taken(order, i));
            assert(taken(order, j));
        }
        assert forall|i: int| 0 <= i < other.len() implies #[trigger] taken(back, i) by {
            let k = order[i];
            assert(taken(order, k));
            if back[k] < i {
                assert(order[back[k]] != order[i]);
            } else if i < back[k] {
                assert(order[i] != order[back[k]]);
            }
            assert(back[k] == i);
        }
        lemma_rearranged_accepted(records, other, document, back);
    }
}

/// An accepted document is accepted in every other order, with the same
/// store.
proof fn lemma_rearranged_accepted<P, V, E>(
    records: Seq<Registration<P>>,
    document: Seq<(Seq<char>, Result<V, E>)>,
    other: Seq<(Seq<char>, Result<V, E>)>,
    order: Seq<int>,
)
    requires
        distinct_names(records),
        rearranged(document, other, order),
        deserialized(records, document) is Ok,
    ensures
        deserialized(records, other) == deserialized(records, document),
{
    law_accepted(records, document);
    law_complete(records, document);
    assert forall|i: int| 0 <= i < records.len() implies occurs(
        other,
        (#[trigger] records[i]).field@,
    ) by {
        let key = records[i].field@;
        assert(occurs(document, key));
        let k = choose|k: int| 0 <= k < document.len() && (#[trigger] document[k]).0 == key;
        assert(taken(order, k));
        let at = choose|at: int| 0 <= at < order.len() && #[trigger] order[at] == k;
        assert(other[at].0 == key);
    }
    assert(clean(records, other)) by {
        assert forall|a: int, b: int|
            0 <= a < b < other.len() && registered(
                records,
                (#[trigger] other[a]).0,
            ) implies other[a].0 != (#[trigger] other[b]).0 by {
            assert(order[a] != order[b]);
            if order[a] < order[b] {
                assert(registered(records, document[order[a]].0));
                assert(document[order[a]].0 != document[order[b]].0);
            } else if other[a].0 == other[b].0 {
                assert(registered(records, document[order[b]].0));
                assert(document[order[b]].0 != document[order[a]].0);
            }
        }
        assert forall|k: int|
            0 <= k < other.len() && registered(
                records,
                (#[trigger] other[k]).0,
            ) implies other[k].1 is Ok by {
            assert(registered(records, document[order[k]].0));
        }
    }
    law_complete(records, other);
    law_accepted(records, other);
    let here = deserialized(records, document)->Ok_0;
    let there = deserialized(records, other)->Ok_0;
    assert forall|key: Seq<char>| here.contains_key(key) implies there.contains_key(key)
        && #[trigger] there[key] == here[key] by {
        assert(registered(records, key));
        let i = choose|i: int| 0 <= i < records.len() && (#[trigger] records[i]).field@ == key;
        assert(occurs(other, records[i].field@));
        let at = choose|at: int| 0 <= at < other.len() && (#[trigger] other[at]).0 == key;
        let k = order[at];
        assert(document[k].0 == records[i].field@);
        assert(typed(here, key, records[i].type_id) == Some(document[k].1->Ok_0));
        assert(typed(there, key, records[i].type_id) == Some(other[at].1->Ok_0));
    }
    assert(here =~= there);
}

/// Unknown-field tolerance. Entries whose keys name no registered field
/// have no effect: the result is that of the document without them.
pub proof fn law_unknown_fields_ignored<P, V, E>(
    records: Seq<Registration<P>>,
    document: Seq<(Seq<char>, Result<V, E>)>,
)
    ensures
        deserialized(records, document) == deserialized(
            records,
            document.filter(|entry: (Seq<char>, Result<V, E>)| registered(records, entry.0)),
        ),
{
    lemma_pass_without_unknown(records, document);
}

/// Type-identity isolation. Registrations of which two share a concrete
/// type are rejected, and so are registrations of which two share a name:
/// no registry is made of them, and without a registry no document is read.
pub proof fn law_shared_type_rejected<P>(records: Seq<Registration<P>>, i: int, j: int)
    requires
        0 <= i < j < records.len(),
        records[i].type_id == records[j].type_id || records[i].field@ == records[j].field@,
    ensures
        conflict(records) is Some,
{
    lemma_conflict_iff_invalid(records);
}

/// Where `clean` holds, the pass does not fail, and the value stored for a
/// registered key is the parsed value of its entry.
proof fn lemma_clean_pass<P, V, E>(
    records: Seq<Registration<P>>,
    document: Seq<(Seq<char>, Result<V, E>)>,
)
    requires
        clean(records, document),
    ensures
        pass(records, document) is Ok,
        forall|k: int|
            0 <= k < document.len() && registered(records, (#[trigger] document[k]).0) ==> {
                &&& pass(records, document)->Ok_0.contains_key(document[k].0)
                &&& pass(records, document)->Ok_0[document[k].0] == (Entry {
                    type_id: records[position(records, document[k].0)->Some_0].type_id,
                    value: document[k].1->Ok_0,
                })
            },
    decreases document.len(),
{
    if document.len() > 0 {
        let front = document.drop_last();
        let last = document.last();
        let n = document.len() - 1;
        assert(clean(records, front)) by {
            assert forall|a: int, b: int|
                0 <= a < b < front.len() && registered(records, (#[trigger] front[a]).0)
                    implies front[a].0 != (#[trigger] front[b]).0 by {
                assert(document[a].0 != document[b].0);
            }
            assert forall|k: int|
                0 <= k < front.len() && registered(records, (#[trigger] front[k]).0)
                    implies front[k].1 is Ok by {
                assert(document[k].1 is Ok);
            }
        }
        lemma_clean_pass(records, front);
        lemma_pass_stores_registered_keys(records, front);
        let before = pass(records, front)->Ok_0;
        assert(last == document[n]);
        if registered(records, last.0) {
            assert(!before.contains_key(last.0)) by {
                if occurs(front, last.0) {
                    let k = choose|k: int|
                        0 <= k < front.len() && (#[trigger] front[k]).0 == last.0;
                    assert(document[k].0 != document[n].0);
                }
            }
            assert(document[n].1 is Ok);
        }
        assert forall|k: int|
            0 <= k < document.len() && registered(records, (#[trigger] document[k]).0) implies {
            &&& pass(records, document)->Ok_0.contains_key(document[k].0)
            &&& pass(records, document)->Ok_0[document[k].0] == (Entry {
                type_id: records[position(records, document[k].0)->Some_0].type_id,
                value: document[k].1->Ok_0,
            })
        } by {
            if k < n {
                assert(front[k] == document[k]);
                if registered(records, last.0) {
                    assert(document[k].0 != document[n].0);
                }
            }
        }
    }
}

/// What [`first_missing`] finds.
proof fn lemma_first_missing<P, V>(
    records: Seq<Registration<P>>,
    entries: Map<Seq<char>, Entry<V>>,
    n: int,
)
    requires
        0 <= n <= records.len(),
    ensures
        match first_missing(records, entries, n) {
            Some(j) => 0 <= j < n && !entries.contains_key(records[j].field@) && forall|h: int|
                0 <= h < j ==> entries.contains_key((#[trigger] records[h]).field@),
            None => forall|h: int|
                0 <= h < n ==> entries.contains_key((#[trigger] records[h]).field@),
        },
    decreases n,
{
    if n > 0 {
        lemma_first_missing(records, entries, n - 1);
    }
}

/// The pass over a document is the pass over its entries with registered
/// keys.
proof fn lemma_pass_without_unknown<P, V, E>(
    records: Seq<Registration<P>>,
    document: Seq<(Seq<char>, Result<V, E>)>,
)
    ensures
        pass(records, document) == pass(
            records,
            document.filter(|entry: (Seq<char>, Result<V, E>)| registered(records, entry.0)),
        ),
    decreases document.len(),
{
    reveal(Seq::filter);
    let known = |entry: (Seq<char>, Result<V, E>)| registered(records, entry.0);
    if document.len() > 0 {
        let front = document.drop_last();
        let last = document.last();
        lemma_pass_without_unknown(records, front);
        if known(last) {
            let kept = front.filter(known).push(last);
            assert(kept.drop_last() =~= front.filter(known));
            assert(kept.last() == last);
        }
    }
}

} // verus!
