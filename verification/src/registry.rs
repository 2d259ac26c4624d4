//! Field registrations and the registry that validates them.
//!
//! A registry is valid when no two of its registrations share a field name
//! and no two share a concrete type. Both rules are checked once, when the
//! registry is built, so that a collision between independently written
//! modules is found before any document is read.

use crate::error::RegistryError;
use crate::identity::same_type;
use std::any::TypeId;
use vstd::hash_map::StringHashMap;
use vstd::prelude::*;

verus! {

/// The declaration of one field: its name, the identity of its concrete type
/// and the routine that parses a document value into a type-erased value of
/// that type. The routine is the only place where the concrete type is
/// known; the engine runs it on the value of the field and stores what it
/// returns.
pub struct Registration<P> {
    pub field: &'static str,
    pub type_id: TypeId,
    pub deserialize: P,
}

/// Registration `j` reuses the field name of an earlier registration.
pub open spec fn name_repeats<P>(records: Seq<Registration<P>>, j: int) -> bool {
    exists|i: int| 0 <= i < j && (#[trigger] records[i]).field@ == records[j].field@
}

/// Registration `j` reuses the concrete type of an earlier registration.
pub open spec fn type_repeats<P>(records: Seq<Registration<P>>, j: int) -> bool {
    exists|i: int| 0 <= i < j && (#[trigger] records[i]).type_id == records[j].type_id
}

/// What is wrong with registration `j`, given the registrations before it.
/// A reused name is reported in preference to a reused type.
pub open spec fn conflict_at<P>(records: Seq<Registration<P>>, j: int) -> Option<RegistryError> {
    if name_repeats(records, j) {
        Some(RegistryError::DuplicateField(records[j].field))
    } else if type_repeats(records, j) {
        Some(RegistryError::DuplicateType(records[j].field))
    } else {
        None
    }
}

/// The conflict of the earliest offending registration among the first `n`.
pub open spec fn first_conflict<P>(records: Seq<Registration<P>>, n: int) -> Option<
    RegistryError,
>
    decreases n,
{
    if n <= 0 {
        None
    } else {
        match first_conflict(records, n - 1) {
            Some(e) => Some(e),
            None => conflict_at(records, n - 1),
        }
    }
}

/// The error with which a sequence of registrations is rejected, if it is.
pub open spec fn conflict<P>(records: Seq<Registration<P>>) -> Option<RegistryError> {
    first_conflict(records, records.len() as int)
}

/// No two registrations share a field name.
pub open spec fn distinct_names<P>(records: Seq<Registration<P>>) -> bool {
    forall|i: int, j: int|
        0 <= i < j < records.len() ==> (#[trigger] records[i]).field@ != (
        #[trigger] records[j]).field@
}

/// No two registrations share a concrete type.
pub open spec fn distinct_types<P>(records: Seq<Registration<P>>) -> bool {
    forall|i: int, j: int|
        0 <= i < j < records.len() ==> (#[trigger] records[i]).type_id != (
        #[trigger] records[j]).type_id
}

/// The rules that every registry obeys.
pub open spec fn valid<P>(records: Seq<Registration<P>>) -> bool {
    distinct_names(records) && distinct_types(records)
}

/// Some registration carries the name `key`.
pub open spec fn registered<P>(records: Seq<Registration<P>>, key: Seq<char>) -> bool {
    exists|i: int| 0 <= i < records.len() && (#[trigger] records[i]).field@ == key
}

/// The place of the registration named `key`. Where names are distinct there
/// is at most one.
pub open spec fn position<P>(records: Seq<Registration<P>>, key: Seq<char>) -> Option<int> {
    if registered(records, key) {
        Some(choose|i: int| 0 <= i < records.len() && (#[trigger] records[i]).field@ == key)
    } else {
        None
    }
}

/// In a registry with distinct names, a registration is found at its own
/// place.
pub proof fn lemma_position<P>(records: Seq<Registration<P>>, i: int)
    requires
        distinct_names(records),
        0 <= i < records.len(),
    ensures
        position(records, records[i].field@) == Some(i),
{
    let key = records[i].field@;
    assert(registered(records, key));
    let found = choose|k: int| 0 <= k < records.len() && (#[trigger] records[k]).field@ == key;
    if found < i {
        assert(records[found].field@ != records[i].field@);
    } else if i < found {
        assert(records[i].field@ != records[found].field@);
    }
}

/// A found place is in range and holds the key.
pub proof fn lemma_position_holds<P>(records: Seq<Registration<P>>, key: Seq<char>)
    ensures
        match position(records, key) {
            Some(i) => 0 <= i < records.len() && records[i].field@ == key,
            None => forall|i: int| 0 <= i < records.len() ==> (#[trigger] records[i]).field@ != key,
        },
{
}

/// The first `n` registrations are free of conflicts exactly when no one of
/// them reuses an earlier name or type.
pub proof fn lemma_first_conflict<P>(records: Seq<Registration<P>>, n: int)
    ensures
        first_conflict(records, n) is None <==> forall|j: int|
            0 <= j < n ==> !name_repeats(records, j) && !type_repeats(records, j),
    decreases n,
{
    if n > 0 {
        lemma_first_conflict(records, n - 1);
        if first_conflict(records, n) is None {
            assert forall|j: int| 0 <= j < n implies !name_repeats(records, j) && !type_repeats(
                records,
                j,
            ) by {
                if j == n - 1 {
                    assert(conflict_at(records, n - 1) is None);
                }
            }
        }
    }
}

/// A sequence of registrations is accepted exactly when it is valid.
pub proof fn lemma_conflict_iff_invalid<P>(records: Seq<Registration<P>>)
    ensures
        conflict(records) is None <==> valid(records),
{
    lemma_first_conflict(records, records.len() as int);
    if conflict(records) is None {
        assert forall|i: int, j: int| 0 <= i < j < records.len() implies (
        #[trigger] records[i]).field@ != (#[trigger] records[j]).field@ by {
            assert(!name_repeats(records, j));
        }
        assert forall|i: int, j: int| 0 <= i < j < records.len() implies (
        #[trigger] records[i]).type_id != (#[trigger] records[j]).type_id by {
            assert(!type_repeats(records, j));
        }
    }
    if valid(records) {
        assert forall|j: int| 0 <= j < records.len() implies !name_repeats(records, j)
            && !type_repeats(records, j) by {}
    }
}

/// A validated sequence of registrations with a lookup from field name to
/// place.
pub struct Registry<'a, P> {
    records: &'a [Registration<P>],
    index: StringHashMap<usize>,
}

impl<'a, P> View for Registry<'a, P> {
    type V = Seq<Registration<P>>;

    closed spec fn view(&self) -> Seq<Registration<P>> {
        self.records@
    }
}

impl<'a, P> Registry<'a, P> {
    /// The lookup holds exactly the names of the registrations, each with its
    /// place.
    pub closed spec fn indexed(&self) -> bool {
        &&& forall|i: int|
            0 <= i < self.records@.len() ==> {
                &&& self.index@.contains_key((#[trigger] self.records@[i]).field@)
                &&& self.index@[self.records@[i].field@] == i
            }
        &&& forall|key: Seq<char>| #[trigger]
            self.index@.contains_key(key) ==> {
                &&& self.index@[key] < self.records@.len()
                &&& self.records@[self.index@[key] as int].field@ == key
            }
    }

    /// The invariant of a registry.
    pub open spec fn wf(&self) -> bool {
        valid(self@) && self@.len() <= usize::MAX && self.indexed()
    }

    /// Validates `records` and builds the lookup. The registrations are
    /// accepted exactly when they are valid; otherwise the earliest offending
    /// registration decides the error.
    pub fn new(records: &'a [Registration<P>]) -> (made: Result<Self, RegistryError>)
        ensures
            match made {
                Ok(registry) => registry.wf() && registry@ == records@ && conflict(records@)
                    is None,
                Err(e) => conflict(records@) == Some(e),
            },
    {
        let mut index: StringHashMap<usize> = StringHashMap::with_capacity(records.len());
        let mut j: usize = 0;
        while j < records.len()
            invariant
                j <= records@.len(),
                first_conflict(records@, j as int) is None,
                forall|i: int|
                    0 <= i < j ==> {
                        &&& index@.contains_key((#[trigger] records@[i]).field@)
                        &&& index@[records@[i].field@] == i
                    },
                forall|key: Seq<char>| #[trigger]
                    index@.contains_key(key) ==> {
                        &&& index@[key] < j
                        &&& records@[index@[key] as int].field@ == key
                    },
            decreases records@.len() - j,
        {
            let record = &records[j];
            proof {
                lemma_first_conflict(records@, j as int);
                lemma_grow_conflict(records@, j as int);
            }
            if index.contains_key(record.field) {
                proof {
                    let i = index@[record.field@] as int;
                    assert(records@[i].field@ == records@[j as int].field@);
                }
                return Err(RegistryError::DuplicateField(record.field));
            }
            if type_used(records, j) {
                return Err(RegistryError::DuplicateType(record.field));
            }
            index.insert(record.field.to_owned(), j);
            j += 1;
        }
        proof {
            lemma_conflict_iff_invalid(records@);
        }
        Ok(Registry { records, index })
    }

    /// The number of registrations.
    pub fn len(&self) -> (n: usize)
        ensures
            n == self@.len(),
    {
        self.records.len()
    }

    /// The registration at place `i`.
    pub fn get(&self, i: usize) -> (record: &'a Registration<P>)
        requires
            i < self@.len(),
        ensures
            *record == self@[i as int],
    {
        &self.records[i]
    }

    /// Looks a document key up among the field names.
    pub fn position(&self, key: &str) -> (place: Option<usize>)
        requires
            self.wf(),
        ensures
            match place {
                Some(i) => position(self@, key@) == Some(i as int),
                None => position(self@, key@) is None,
            },
    {
        match self.index.get(key) {
            Some(i) => {
                proof {
                    lemma_position(self@, *i as int);
                }
                Some(*i)
            },
            None => {
                proof {
                    if registered(self@, key@) {
                        let i = choose|i: int|
                            0 <= i < self@.len() && (#[trigger] self@[i]).field@ == key@;
                        assert(self.index@.contains_key(self.records@[i].field@));
                    }
                }
                None
            },
        }
    }
}

/// Once the first `n` registrations are free of conflicts, the conflict of
/// the first `n + 1` is that of registration `n`.
proof fn lemma_grow_conflict<P>(records: Seq<Registration<P>>, n: int)
    requires
        0 <= n < records.len(),
        first_conflict(records, n) is None,
    ensures
        first_conflict(records, n + 1) == conflict_at(records, n),
        conflict_at(records, n) is Some ==> conflict(records) == conflict_at(records, n),
{
    if conflict_at(records, n) is Some {
        lemma_conflict_stays(records, n + 1, records.len() as int);
    }
}

/// A conflict among the first `n` registrations is the conflict of every
/// longer prefix.
proof fn lemma_conflict_stays<P>(records: Seq<Registration<P>>, n: int, m: int)
    requires
        0 <= n <= m,
        first_conflict(records, n) is Some,
    ensures
        first_conflict(records, m) == first_conflict(records, n),
    decreases m - n,
{
    if n < m {
        lemma_conflict_stays(records, n, m - 1);
    }
}

/// Tells whether registration `j` reuses the type of an earlier one.
fn type_used<P>(records: &[Registration<P>], j: usize) -> (used: bool)
    requires
        j < records@.len(),
    ensures
        used == type_repeats(records@, j as int),
{
    let mut i: usize = 0;
    while i < j
        invariant
            i <= j < records@.len(),
            forall|k: int|
                0 <= k < i ==> (#[trigger] records@[k]).type_id != records@[j as int].type_id,
        decreases j - i,
    {
        if same_type(&records[i].type_id, &records[j].type_id) {
            return true;
        }
        i += 1;
    }
    false
}

} // verus!
