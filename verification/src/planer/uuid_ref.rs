//! Weak references between entities.
//!
//! People, rooms and exams live in collections that own them. Everything else
//! points at them with a [`UuidRef`]: the identifier of the target and a
//! handle that remembers where the target was last seen. A reference never
//! owns its target and never keeps it alive; once the target has left its
//! collection the reference stops resolving.

use core::marker::PhantomData;
use vstd::prelude::*;

verus! {

/// An entity with a stable identifier.
pub trait AsUuid {
    /// The identifier, as a mathematical value.
    spec fn uuid_spec(&self) -> u128;

    fn as_uuid(&self) -> (id: u128)
        ensures
            id == self.uuid_spec(),
    ;
}

/// The identifiers of a collection, in the order of the collection.
pub open spec fn uuids<T: AsUuid>(data: Seq<T>) -> Seq<u128> {
    Seq::new(data.len(), |i: int| data[i].uuid_spec())
}

/// The first place at or after `from` at which `ids` holds `id`.
pub open spec fn first_index_from(ids: Seq<u128>, id: u128, from: int) -> Option<int>
    decreases ids.len() - from,
{
    if from < 0 || from >= ids.len() {
        None
    } else if ids[from] == id {
        Some(from)
    } else {
        first_index_from(ids, id, from + 1)
    }
}

/// The first place at which `ids` holds `id`.
pub open spec fn first_index(ids: Seq<u128>, id: u128) -> Option<int> {
    first_index_from(ids, id, 0)
}

/// Where a reference with the handle `item` and the identifier `uuid` points
/// in a collection with the identifiers `ids`.
///
/// A reference without a handle points nowhere. A handle that still names a
/// place holding the identifier is followed; a stale handle falls back to the
/// first place that holds the identifier.
pub open spec fn resolve(item: Option<usize>, uuid: u128, ids: Seq<u128>) -> Option<int> {
    match item {
        None => None,
        Some(place) => if place < ids.len() && ids[place as int] == uuid {
            Some(place as int)
        } else {
            first_index(ids, uuid)
        },
    }
}

/// `first_index_from` finds the least matching place, and finds none only if
/// there is none.
pub proof fn lemma_first_index_from(ids: Seq<u128>, id: u128, from: int)
    requires
        0 <= from,
    ensures
        match first_index_from(ids, id, from) {
            Some(i) => from <= i < ids.len() && ids[i] == id && forall|j: int|
                from <= j < i ==> ids[j] != id,
            None => forall|j: int| from <= j < ids.len() ==> ids[j] != id,
        },
    decreases ids.len() - from,
{
    if from < ids.len() && ids[from] != id {
        lemma_first_index_from(ids, id, from + 1);
    }
}

/// What `resolve` finds holds the identifier, and it finds something exactly
/// when the reference has a handle and the identifier occurs.
pub proof fn lemma_resolve(item: Option<usize>, uuid: u128, ids: Seq<u128>)
    ensures
        match resolve(item, uuid, ids) {
            Some(i) => 0 <= i < ids.len() && ids[i] == uuid,
            None => item is None || forall|j: int| 0 <= j < ids.len() ==> ids[j] != uuid,
        },
        resolve(item, uuid, ids) is Some <==> item is Some && exists|j: int|
            0 <= j < ids.len() && ids[j] == uuid,
{
    lemma_first_index_from(ids, uuid, 0);
}

/// A weak reference to an entity of kind `T`.
#[derive(Debug)]
pub struct UuidRef<T> {
    /// The place at which the target was last seen, if the reference is
    /// attached. It is a hint: a wrong place costs a search, never a wrong
    /// answer.
    pub item: Option<usize>,
    /// The identifier of the target.
    pub uuid: u128,
    pub target: PhantomData<T>,
}

impl<T> Clone for UuidRef<T> {
    fn clone(&self) -> (copy: Self)
        ensures
            copy == *self,
    {
        UuidRef { item: self.item, uuid: self.uuid, target: PhantomData }
    }
}

impl<T> AsUuid for UuidRef<T> {
    open spec fn uuid_spec(&self) -> u128 {
        self.uuid
    }

    fn as_uuid(&self) -> (id: u128) {
        self.uuid
    }
}

impl<T> UuidRef<T> {
    /// The reference with the given identifier and handle.
    pub open spec fn of(uuid: u128, item: Option<usize>) -> Self {
        UuidRef { item, uuid, target: PhantomData }
    }

    /// The reference after `revalidate` against a collection with the
    /// identifiers `ids`.
    pub open spec fn revalidated(self, ids: Seq<u128>) -> Self {
        match first_index(ids, self.uuid) {
            Some(i) => Self::of(self.uuid, Some(i as usize)),
            None => Self::of(self.uuid, None),
        }
    }

    /// A reference to no entity: it carries the identifier 0 and no handle.
    pub fn null() -> (r: Self)
        ensures
            r == Self::of(0, None),
    {
        UuidRef { item: None, uuid: 0, target: PhantomData }
    }

    /// A reference that knows only the identifier of its target, as it comes
    /// out of a stored plan. It resolves to nothing until it is revalidated.
    pub fn detached(uuid: u128) -> (r: Self)
        ensures
            r == Self::of(uuid, None),
    {
        UuidRef { item: None, uuid, target: PhantomData }
    }

    pub fn uuid(&self) -> (id: u128)
        ensures
            id == self.uuid,
    {
        self.uuid
    }
}

impl<T: AsUuid> UuidRef<T> {
    /// Where the reference points in `data`.
    pub open spec fn resolve_in(self, data: Seq<T>) -> Option<int> {
        resolve(self.item, self.uuid, uuids(data))
    }

    /// A reference to the entity `v`, which stands at `place` in its
    /// collection.
    pub fn new(v: &T, place: usize) -> (r: Self)
        ensures
            r == Self::of(v.uuid_spec(), Some(place)),
    {
        UuidRef { item: Some(place), uuid: v.as_uuid(), target: PhantomData }
    }

    /// Attaches the reference to the first entity of `data` that carries its
    /// identifier, or detaches it if there is none.
    pub fn revalidate(&mut self, data: &[T])
        ensures
            *final(self) == old(self).revalidated(uuids(data@)),
    {
        self.item = find_uuid(data, self.uuid);
    }

    /// The place of the target in `data`, or `None` if the reference is
    /// unresolved.
    pub fn position(&self, data: &[T]) -> (place: Option<usize>)
        ensures
            match place {
                Some(p) => p < data@.len() && self.resolve_in(data@) == Some(p as int),
                None => self.resolve_in(data@) is None,
            },
    {
        proof {
            lemma_resolve(self.item, self.uuid, uuids(data@));
        }
        match self.item {
            None => None,
            Some(place) => {
                if place < data.len() && data[place].as_uuid() == self.uuid {
                    Some(place)
                } else {
                    find_uuid(data, self.uuid)
                }
            },
        }
    }

    /// The target in `data`, or `None` if the reference is unresolved.
    pub fn get<'a>(&self, data: &'a [T]) -> (target: Option<&'a T>)
        ensures
            match self.resolve_in(data@) {
                Some(i) => 0 <= i < data@.len() && target == Some(&data@[i]),
                None => target is None,
            },
    {
        match self.position(data) {
            Some(place) => Some(&data[place]),
            None => None,
        }
    }
}

/// The first place of `data` whose entity carries the identifier `id`.
pub fn find_uuid<T: AsUuid>(data: &[T], id: u128) -> (place: Option<usize>)
    ensures
        match place {
            Some(p) => p < data@.len() && first_index(uuids(data@), id) == Some(p as int),
            None => first_index(uuids(data@), id) is None,
        },
{
    let ghost ids = uuids(data@);
    let mut i: usize = 0;
    while i < data.len()
        invariant
            i <= data@.len(),
            ids == uuids(data@),
            first_index(ids, id) == first_index_from(ids, id, i as int),
        decreases data@.len() - i,
    {
        if data[i].as_uuid() == id {
            return Some(i);
        }
        i += 1;
    }
    None
}

/// After revalidation a reference resolves exactly when its identifier
/// occurs in the collection it was revalidated against, and what it resolves
/// to carries that identifier.
pub proof fn lemma_revalidate_resolves<T: AsUuid>(r: UuidRef<T>, data: Seq<T>)
    ensures
        (exists|j: int| 0 <= j < data.len() && data[j].uuid_spec() == r.uuid) ==> ({
            let found = r.revalidated(uuids(data)).resolve_in(data);
            found is Some && 0 <= found->0 < data.len() && data[found->0].uuid_spec() == r.uuid
        }),
        (forall|j: int| 0 <= j < data.len() ==> data[j].uuid_spec() != r.uuid)
            ==> r.revalidated(uuids(data)).resolve_in(data) is None,
{
    let ids = uuids(data);
    lemma_first_index_from(ids, r.uuid, 0);
    let again = r.revalidated(ids);
    lemma_resolve(again.item, again.uuid, ids);
    if exists|j: int| 0 <= j < data.len() && data[j].uuid_spec() == r.uuid {
        let j = choose|j: int| 0 <= j < data.len() && data[j].uuid_spec() == r.uuid;
        assert(ids[j] == r.uuid);
    }
}

/// Whether a reference with the handle `item` and the identifier `uuid`
/// is settled in a collection with the identifiers `ids`: it resolves to a
/// place that holds its identifier if the identifier is there at all, and
/// to nothing if it is not.
pub open spec fn settled(item: Option<usize>, uuid: u128, ids: Seq<u128>) -> bool {
    match resolve(item, uuid, ids) {
        Some(i) => 0 <= i < ids.len() && ids[i] == uuid,
        None => !ids.contains(uuid),
    }
}

/// Whether a reference that may point into either of two collections is
/// settled: it resolves in the first if its identifier is there, else in
/// the second if its identifier is there, and else in neither.
pub open spec fn settled_among(
    item: Option<usize>,
    uuid: u128,
    first: Seq<u128>,
    second: Seq<u128>,
) -> bool {
    if first.contains(uuid) {
        settled(item, uuid, first)
    } else if second.contains(uuid) {
        settled(item, uuid, second)
    } else {
        resolve(item, uuid, first) is None && resolve(item, uuid, second) is None
    }
}

/// A reference that was revalidated against a collection is settled in it.
pub proof fn lemma_revalidated_is_settled<T>(r: UuidRef<T>, ids: Seq<u128>)
    ensures
        settled(r.revalidated(ids).item, r.revalidated(ids).uuid, ids),
        r.revalidated(ids).uuid == r.uuid,
{
    lemma_first_index_from(ids, r.uuid, 0);
    let again = r.revalidated(ids);
    lemma_resolve(again.item, again.uuid, ids);
    if ids.contains(r.uuid) {
        let j = choose|j: int| 0 <= j < ids.len() && ids[j] == r.uuid;
        assert(ids[j] == r.uuid);
    }
}

/// Whether `id` has the shape of a random identifier: the version bits say
/// 4 and the variant bits say 10. The identifier 0 has not.
pub open spec fn is_random_uuid(id: u128) -> bool {
    id & 0xF000_C000_0000_0000_0000u128 == 0x4000_8000_0000_0000_0000u128
}

/// `uuid::Uuid::new_v4`, then `as_u128` on the result. The first draws 128
/// random bits and overwrites six of them with the version 4 and the
/// variant 10; the second hands out the sixteen bytes as one number. The
/// contract claims those six bits and nothing of the others.
#[verifier::external_body]
pub(crate) fn fresh_uuid() -> (id: u128)
    ensures
        is_random_uuid(id),
{
    uuid::Uuid::new_v4().as_u128()
}

} // verus!
