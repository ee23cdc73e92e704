//! Calendars: the bookings of one room or one person.
//!
//! Instants are whole nanoseconds since the Unix epoch (UTC) and spans are
//! whole nanoseconds, both as `i64`. A booking covers the closed interval
//! from its start to its start plus its duration: both ends belong to it, so
//! two bookings that only touch at one instant still overlap.

use super::uuid_ref::{AsUuid, UuidRef, uuids};
use vstd::multiset::Multiset;
use vstd::prelude::*;

verus! {

/// Whether the closed interval of length `duration` from `start` holds `time`.
pub open spec fn instant_within(start: int, duration: int, time: int) -> bool {
    start <= time <= start + duration
}

/// Whether two closed intervals share an instant.
pub open spec fn spans_overlap(
    a_start: int,
    a_duration: int,
    b_start: int,
    b_duration: int,
) -> bool {
    a_start <= b_start + b_duration && b_start <= a_start + a_duration
}

/// One booking: an interval and what it was booked for.
#[derive(Debug)]
pub struct Event<T> {
    pub start: i64,
    pub duration: i64,
    pub data: T,
}

impl<T> Event<T> {
    pub open spec fn includes_time_spec(self, time: int) -> bool {
        instant_within(self.start as int, self.duration as int, time)
    }

    pub open spec fn includes_spec(self, start: int, duration: int) -> bool {
        spans_overlap(start, duration, self.start as int, self.duration as int)
    }

    pub fn new(start: i64, duration: i64, data: T) -> (ev: Self)
        ensures
            ev.start == start,
            ev.duration == duration,
            ev.data == data,
    {
        Event { start, duration, data }
    }

    /// Whether the booking holds the instant `time`; both ends count.
    pub fn includes_time(&self, time: &i64) -> (inside: bool)
        ensures
            inside == self.includes_time_spec(*time as int),
    {
        let end: i128 = self.start as i128 + self.duration as i128;
        self.start <= *time && end >= *time as i128
    }

    /// Whether the booking shares an instant with the closed interval of
    /// length `duration` from `start`.
    pub fn includes(&self, start: &i64, duration: i64) -> (overlaps: bool)
        ensures
            overlaps == self.includes_spec(*start as int, duration as int),
    {
        let end: i128 = self.start as i128 + self.duration as i128;
        let other_end: i128 = *start as i128 + duration as i128;
        *start as i128 <= end && other_end >= self.start as i128
    }
}

/// A booking that does not run backwards holds its first and its last
/// instant, and not the instant one nanosecond before its start.
pub proof fn lemma_event_holds_its_ends<T>(ev: Event<T>)
    requires
        ev.duration >= 0,
    ensures
        ev.includes_time_spec(ev.start as int),
        ev.includes_time_spec(ev.start + ev.duration),
        !ev.includes_time_spec(ev.start - 1),
{
}

/// Whether some booking of `events` holds the instant `time`.
pub open spec fn booked_at<E>(events: Seq<Event<E>>, time: int) -> bool {
    exists|i: int| 0 <= i < events.len() && (#[trigger] events[i]).includes_time_spec(time)
}

/// Whether some booking of `events` overlaps the interval of length
/// `duration` from `start`.
pub open spec fn booked_within<E>(events: Seq<Event<E>>, start: int, duration: int) -> bool {
    exists|i: int| 0 <= i < events.len() && (#[trigger] events[i]).includes_spec(start, duration)
}

/// The bookings of `events` that hold the instant `time`, in their order.
pub open spec fn events_at<E>(events: Seq<Event<E>>, time: int) -> Seq<Event<E>> {
    events.filter(|ev: Event<E>| ev.includes_time_spec(time))
}

/// The bookings of `events` that overlap the interval of length `duration`
/// from `start`, in their order.
pub open spec fn events_within<E>(events: Seq<Event<E>>, start: int, duration: int) -> Seq<
    Event<E>,
> {
    events.filter(|ev: Event<E>| ev.includes_spec(start, duration))
}

/// The last place before `upto` whose booking holds the instant `time`.
pub open spec fn last_holding<E>(events: Seq<Event<E>>, time: int, upto: int) -> Option<int>
    decreases upto,
{
    if upto <= 0 || upto > events.len() {
        None
    } else if events[upto - 1].includes_time_spec(time) {
        Some(upto - 1)
    } else {
        last_holding(events, time, upto - 1)
    }
}

/// What a calendar has at an instant: nothing, a booking that starts at
/// that very instant, or a booking that started before it. Of several
/// bookings that hold the instant the last one counts; its place is given.
#[derive(Clone, Copy, Debug, PartialEq, Eq, Structural)]
pub enum Slot {
    Free,
    Starts(usize),
    Covered(usize),
}

/// What `events` have at the instant `time`.
pub open spec fn slot_of<E>(events: Seq<Event<E>>, time: i64) -> Slot {
    match last_holding(events, time as int, events.len() as int) {
        None => Slot::Free,
        Some(i) => if events[i].start == time {
            Slot::Starts(i as usize)
        } else {
            Slot::Covered(i as usize)
        },
    }
}

/// The values behind a sequence of shared references.
pub open spec fn targets<T>(refs: Seq<&T>) -> Seq<T> {
    refs.map_values(|r: &T| *r)
}

/// What makes two bookings the same booking: start, duration and the
/// identifier of what was booked.
pub open spec fn booking_key<E: AsUuid>(ev: Event<E>) -> (i64, i64, u128) {
    (ev.start, ev.duration, ev.data.uuid_spec())
}

/// The first place at or after `from` whose booking has the key `key`.
pub open spec fn first_booking_from<E: AsUuid>(
    events: Seq<Event<E>>,
    key: (i64, i64, u128),
    from: int,
) -> Option<int>
    decreases events.len() - from,
{
    if from < 0 || from >= events.len() {
        None
    } else if booking_key(events[from]) == key {
        Some(from)
    } else {
        first_booking_from(events, key, from + 1)
    }
}

/// `events` without the first booking that has the key `key`; unchanged if
/// there is none.
pub open spec fn without_first<E: AsUuid>(events: Seq<Event<E>>, key: (i64, i64, u128)) -> Seq<
    Event<E>,
> {
    match first_booking_from(events, key, 0) {
        Some(i) => events.remove(i),
        None => events,
    }
}

/// A calendar as an unordered collection: how often each booking key occurs.
pub open spec fn booking_keys<E: AsUuid>(events: Seq<Event<E>>) -> Multiset<(i64, i64, u128)> {
    events.map_values(|ev: Event<E>| booking_key(ev)).to_multiset()
}

/// `events` with the payload of every booking revalidated against `ids`.
pub open spec fn revalidated_events<T>(events: Seq<Event<UuidRef<T>>>, ids: Seq<u128>) -> Seq<
    Event<UuidRef<T>>,
> {
    Seq::new(
        events.len(),
        |i: int|
            Event {
                start: events[i].start,
                duration: events[i].duration,
                data: events[i].data.revalidated(ids),
            },
    )
}

/// `events` with the payload of every booking that has no handle
/// revalidated against `ids`; a payload with a handle stays as it is.
pub open spec fn revalidated_detached_events<T>(
    events: Seq<Event<UuidRef<T>>>,
    ids: Seq<u128>,
) -> Seq<Event<UuidRef<T>>> {
    Seq::new(
        events.len(),
        |i: int|
            if events[i].data.item is None {
                Event {
                    start: events[i].start,
                    duration: events[i].duration,
                    data: events[i].data.revalidated(ids),
                }
            } else {
                events[i]
            },
    )
}

/// `first_booking_from` finds the least place with the key, and finds none
/// only if there is none.
pub proof fn lemma_first_booking_from<E: AsUuid>(
    events: Seq<Event<E>>,
    key: (i64, i64, u128),
    from: int,
)
    requires
        0 <= from,
    ensures
        match first_booking_from(events, key, from) {
            Some(i) => from <= i < events.len() && booking_key(events[i]) == key && forall|j: int|
                from <= j < i ==> booking_key(events[j]) != key,
            None => forall|j: int| from <= j < events.len() ==> booking_key(events[j]) != key,
        },
    decreases events.len() - from,
{
    if from < events.len() && booking_key(events[from]) != key {
        lemma_first_booking_from(events, key, from + 1);
    }
}

/// Adding a booking adds its key once.
pub proof fn lemma_keys_after_add<E: AsUuid>(events: Seq<Event<E>>, ev: Event<E>)
    ensures
        booking_keys(events.push(ev)) == booking_keys(events).insert(booking_key(ev)),
{
    let key_of = |ev: Event<E>| booking_key(ev);
    assert(events.push(ev).map_values(key_of) =~= events.map_values(key_of).push(booking_key(ev)));
    vstd::seq_lib::to_multiset_build(events.map_values(key_of), booking_key(ev));
}

/// Removing the first booking with a key removes that key once, if it
/// occurs at all.
pub proof fn lemma_keys_after_remove<E: AsUuid>(events: Seq<Event<E>>, key: (i64, i64, u128))
    ensures
        booking_keys(events).count(key) > 0 ==> booking_keys(without_first(events, key))
            == booking_keys(events).remove(key),
        booking_keys(events).count(key) == 0 ==> without_first(events, key) == events,
{
    let key_of = |ev: Event<E>| booking_key(ev);
    let keys = events.map_values(key_of);
    lemma_first_booking_from(events, key, 0);
    keys.to_multiset_ensures();
    match first_booking_from(events, key, 0) {
        Some(i) => {
            assert(keys[i] == key);
            assert(keys.contains(key));
            assert(events.remove(i).map_values(key_of) =~= keys.remove(i));
            vstd::seq_lib::to_multiset_remove(keys, i);
        },
        None => {
            if keys.contains(key) {
                let j = choose|j: int| 0 <= j < keys.len() && keys[j] == key;
                assert(booking_key(events[j]) == key);
            }
        },
    }
}

/// Removing a booking that was just added leaves the calendar, taken as an
/// unordered collection, as it was.
pub proof fn lemma_add_then_remove<E: AsUuid>(events: Seq<Event<E>>, ev: Event<E>)
    ensures
        booking_keys(without_first(events.push(ev), booking_key(ev))) == booking_keys(events),
{
    let key = booking_key(ev);
    lemma_keys_after_add(events, ev);
    lemma_keys_after_remove(events.push(ev), key);
    assert(booking_keys(events).insert(key).remove(key) =~= booking_keys(events));
}

/// Filtering a sequence with one more element filters the sequence and
/// keeps the element if it passes.
pub proof fn lemma_filter_push<A>(s: Seq<A>, x: A, pred: spec_fn(A) -> bool)
    ensures
        s.push(x).filter(pred) == if pred(x) {
            s.filter(pred).push(x)
        } else {
            s.filter(pred)
        },
{
    reveal(Seq::filter);
    assert(s.push(x).drop_last() =~= s);
}

/// The bookings of one room or one person, in the order in which they were
/// made.
#[derive(Debug)]
pub struct Calendar<E> {
    events: Vec<Event<E>>,
}

impl<E> View for Calendar<E> {
    type V = Seq<Event<E>>;

    closed spec fn view(&self) -> Seq<Event<E>> {
        self.events@
    }
}

impl<E> Calendar<E> {
    pub fn new() -> (calendar: Self)
        ensures
            calendar@ == Seq::<Event<E>>::empty(),
    {
        Self { events: Vec::new() }
    }

    /// The bookings, in the order in which they were made.
    pub fn events(&self) -> (events: &[Event<E>])
        ensures
            events@ == self@,
    {
        self.events.as_slice()
    }

    /// Adds a booking. Nothing is refused here: a calendar may hold
    /// overlapping bookings.
    pub fn add_event(&mut self, ev: Event<E>)
        ensures
            final(self)@ == old(self)@.push(ev),
    {
        self.events.push(ev);
    }

    pub fn is_booked_at(&self, time: &i64) -> (booked: bool)
        ensures
            booked == booked_at(self@, *time as int),
    {
        let mut i: usize = 0;
        while i < self.events.len()
            invariant
                i <= self.events@.len(),
                forall|j: int|
                    0 <= j < i ==> !(#[trigger] self.events@[j]).includes_time_spec(*time as int),
            decreases self.events@.len() - i,
        {
            if self.events[i].includes_time(time) {
                return true;
            }
            i += 1;
        }
        false
    }

    pub fn get_events_at(&self, time: &i64) -> (found: Vec<&Event<E>>)
        ensures
            targets(found@) == events_at(self@, *time as int),
    {
        let ghost pred = |ev: Event<E>| ev.includes_time_spec(*time as int);
        let mut found: Vec<&Event<E>> = Vec::new();
        let mut i: usize = 0;
        assert(self.events@.take(0) =~= Seq::<Event<E>>::empty());
        assert(targets(found@) =~= self.events@.take(0).filter(pred));
        while i < self.events.len()
            invariant
                i <= self.events@.len(),
                pred == |ev: Event<E>| ev.includes_time_spec(*time as int),
                targets(found@) == self.events@.take(i as int).filter(pred),
            decreases self.events@.len() - i,
        {
            let ev = &self.events[i];
            let ghost before = found@;
            proof {
                lemma_filter_push(self.events@.take(i as int), *ev, pred);
                assert(self.events@.take(i + 1) =~= self.events@.take(i as int).push(*ev));
            }
            if ev.includes_time(time) {
                found.push(ev);
                assert(targets(found@) =~= targets(before).push(*ev));
            }
            i += 1;
        }
        assert(self.events@.take(i as int) =~= self.events@);
        found
    }

    /// What the calendar has at the instant `time`.
    pub fn slot_at(&self, time: &i64) -> (slot: Slot)
        ensures
            slot == slot_of(self@, *time),
            match slot {
                Slot::Free => !booked_at(self@, *time as int),
                Slot::Starts(i) => i < self@.len() && self@[i as int].start == *time,
                Slot::Covered(i) => i < self@.len() && self@[i as int].start < *time,
            },
    {
        let mut i: usize = self.events.len();
        while i > 0
            invariant
                i <= self.events@.len(),
                last_holding(self.events@, *time as int, self.events@.len() as int) == last_holding(
                    self.events@,
                    *time as int,
                    i as int,
                ),
                forall|j: int|
                    i <= j < self.events@.len() ==> !(#[trigger] self.events@[j]).includes_time_spec(
                        *time as int,
                    ),
            decreases i,
        {
            i -= 1;
            let ev = &self.events[i];
            if ev.includes_time(time) {
                if ev.start == *time {
                    return Slot::Starts(i);
                } else {
                    return Slot::Covered(i);
                }
            }
        }
        Slot::Free
    }

    pub fn is_booked_from_to(&self, time: &i64, duration: i64) -> (booked: bool)
        ensures
            booked == booked_within(self@, *time as int, duration as int),
    {
        let mut i: usize = 0;
        while i < self.events.len()
            invariant
                i <= self.events@.len(),
                forall|j: int|
                    0 <= j < i ==> !(#[trigger] self.events@[j]).includes_spec(
                        *time as int,
                        duration as int,
                    ),
            decreases self.events@.len() - i,
        {
            if self.events[i].includes(time, duration) {
                return true;
            }
            i += 1;
        }
        false
    }

    pub fn get_booked_from_to(&self, time: &i64, duration: i64) -> (found: Vec<&Event<E>>)
        ensures
            targets(found@) == events_within(self@, *time as int, duration as int),
    {
        let ghost pred = |ev: Event<E>| ev.includes_spec(*time as int, duration as int);
        let mut found: Vec<&Event<E>> = Vec::new();
        let mut i: usize = 0;
        assert(self.events@.take(0) =~= Seq::<Event<E>>::empty());
        assert(targets(found@) =~= self.events@.take(0).filter(pred));
        while i < self.events.len()
            invariant
                i <= self.events@.len(),
                pred == |ev: Event<E>| ev.includes_spec(*time as int, duration as int),
                targets(found@) == self.events@.take(i as int).filter(pred),
            decreases self.events@.len() - i,
        {
            let ev = &self.events[i];
            let ghost before = found@;
            proof {
                lemma_filter_push(self.events@.take(i as int), *ev, pred);
                assert(self.events@.take(i + 1) =~= self.events@.take(i as int).push(*ev));
            }
            if ev.includes(time, duration) {
                found.push(ev);
                assert(targets(found@) =~= targets(before).push(*ev));
            }
            i += 1;
        }
        assert(self.events@.take(i as int) =~= self.events@);
        found
    }
}

impl<E: AsUuid> Calendar<E> {
    /// Removes the first booking that has the start, the duration and the
    /// payload identifier of `ev`. Without such a booking nothing changes.
    pub fn remove_event(&mut self, ev: &Event<E>)
        ensures
            final(self)@ == without_first(old(self)@, booking_key(*ev)),
    {
        let id = ev.data.as_uuid();
        let ghost key = booking_key(*ev);
        let mut i: usize = 0;
        while i < self.events.len()
            invariant
                i <= self.events@.len(),
                self.events@ == old(self).events@,
                key == booking_key(*ev),
                id == ev.data.uuid_spec(),
                first_booking_from(self.events@, key, 0) == first_booking_from(
                    self.events@,
                    key,
                    i as int,
                ),
            decreases self.events@.len() - i,
        {
            let here = &self.events[i];
            if here.start == ev.start && here.duration == ev.duration && here.data.as_uuid() == id {
                self.events.remove(i);
                return ;
            }
            i += 1;
        }
    }
}

impl<T: AsUuid> Calendar<UuidRef<T>> {
    /// Revalidates the payload of every booking against `data`.
    pub fn revalidate(&mut self, data: &[T])
        ensures
            final(self)@ == revalidated_events(old(self)@, uuids(data@)),
    {
        let ghost ids = uuids(data@);
        let mut i: usize = 0;
        while i < self.events.len()
            invariant
                i <= self.events@.len(),
                ids == uuids(data@),
                self.events@.len() == old(self).events@.len(),
                forall|j: int|
                    0 <= j < i ==> self.events@[j] == revalidated_events(old(self).events@, ids)[j],
                forall|j: int| i <= j < self.events@.len() ==> self.events@[j] == old(self).events@[j],
            decreases self.events@.len() - i,
        {
            self.events[i].data.revalidate(data);
            i += 1;
        }
        assert(self.events@ =~= revalidated_events(old(self).events@, ids));
    }

    /// Revalidates against `data` the payload of every booking that has no
    /// handle, and leaves the others as they are.
    pub fn revalidate_detached(&mut self, data: &[T])
        ensures
            final(self)@ == revalidated_detached_events(old(self)@, uuids(data@)),
    {
        let ghost ids = uuids(data@);
        let mut i: usize = 0;
        while i < self.events.len()
            invariant
                i <= self.events@.len(),
                ids == uuids(data@),
                self.events@.len() == old(self).events@.len(),
                forall|j: int|
                    0 <= j < i ==> self.events@[j] == revalidated_detached_events(
                        old(self).events@,
                        ids,
                    )[j],
                forall|j: int| i <= j < self.events@.len() ==> self.events@[j] == old(self).events@[j],
            decreases self.events@.len() - i,
        {
            if self.events[i].data.item.is_none() {
                self.events[i].data.revalidate(data);
            }
            i += 1;
        }
        assert(self.events@ =~= revalidated_detached_events(old(self).events@, ids));
    }
}

/// The values that a sequence of mutable references points to now.
pub open spec fn currents<T>(refs: Seq<&mut T>) -> Seq<T> {
    refs.map_values(|r: &mut T| *r)
}

/// `events` with the elements that pass `pred` replaced, in their order, by
/// the elements of `with`.
pub open spec fn rewritten<A>(events: Seq<A>, pred: spec_fn(A) -> bool, with: Seq<A>) -> Seq<A>
    decreases events.len(),
{
    if events.len() == 0 {
        Seq::empty()
    } else if pred(events.last()) {
        rewritten(events.drop_last(), pred, with.drop_last()).push(with.last())
    } else {
        rewritten(events.drop_last(), pred, with).push(events.last())
    }
}

impl<E> Calendar<E> {
    /// The bookings that hold the instant `time`, to be changed in place.
    /// When the references are given up, the calendar holds what they then
    /// point to in the places of those bookings, and is otherwise as it was.
    pub fn get_events_at_mut(&mut self, time: &i64) -> (found: Vec<&mut Event<E>>)
        ensures
            currents(found@) == events_at(old(self)@, *time as int),
            final(self)@ == rewritten(
                old(self)@,
                |ev: Event<E>| ev.includes_time_spec(*time as int),
                found@.map_values(|r: &mut Event<E>| *final(r)),
            ),
    {
        let ghost pred = |ev: Event<E>| ev.includes_time_spec(*time as int);
        let ghost first = self.events@;
        let ghost mut seen: int = 0;
        let mut found: Vec<&mut Event<E>> = Vec::new();
        let mut rest: &mut [Event<E>] = self.events.as_mut_slice();
        proof {
            assert(first.take(0) =~= Seq::<Event<E>>::empty());
            assert(currents(found@) =~= first.take(0).filter(pred));
            assert(found@.map_values(|r: &mut Event<E>| *final(r)) =~= Seq::<
                Event<E>,
            >::empty());
            assert(rest@.skip(0) =~= rest@);
        }
        while rest.len() > 0
            invariant
                0 <= seen <= first.len(),
                pred == |ev: Event<E>| ev.includes_time_spec(*time as int),
                rest@ == first.skip(seen),
                currents(found@) == first.take(seen).filter(pred),
                after_borrow(self.events)@ == rewritten(
                    first.take(seen),
                    pred,
                    found@.map_values(|r: &mut Event<E>| *final(r)),
                ) + final(rest)@,
            decreases rest@.len(),
        {
            let ghost had = found@;
            let (head, tail) = rest.split_at_mut(1);
            rest = tail;
            match head.first_mut() {
                Some(ev) => {
                    proof {
                        assert(first.take(seen + 1) =~= first.take(seen).push(*ev));
                        lemma_filter_push(first.take(seen), *ev, pred);
                        assert(first.take(seen + 1).drop_last() =~= first.take(seen));
                    }
                    if ev.includes_time(time) {
                        found.push(ev);
                        proof {
                            assert(currents(found@) =~= currents(had).push(first[seen]));
                            assert(found@.map_values(|r: &mut Event<E>| *final(r)).drop_last()
                                =~= had.map_values(|r: &mut Event<E>| *final(r)));
                        }
                    }
                },
                None => {},
            }
            proof {
                assert(first.skip(seen + 1) =~= first.skip(seen).subrange(1, first.len() - seen));
                seen = seen + 1;
            }
        }
        proof {
            assert(first.take(seen) =~= first);
        }
        found
    }

    /// The bookings that overlap the interval of length `duration` from
    /// `time`, to be changed in place. When the references are given up, the
    /// calendar holds what they then point to in the places of those
    /// bookings, and is otherwise as it was.
    pub fn get_booked_from_to_mut(&mut self, time: &i64, duration: i64) -> (found: Vec<
        &mut Event<E>,
    >)
        ensures
            currents(found@) == events_within(old(self)@, *time as int, duration as int),
            final(self)@ == rewritten(
                old(self)@,
                |ev: Event<E>| ev.includes_spec(*time as int, duration as int),
                found@.map_values(|r: &mut Event<E>| *final(r)),
            ),
    {
        let ghost pred = |ev: Event<E>| ev.includes_spec(*time as int, duration as int);
        let ghost first = self.events@;
        let ghost mut seen: int = 0;
        let mut found: Vec<&mut Event<E>> = Vec::new();
        let mut rest: &mut [Event<E>] = self.events.as_mut_slice();
        proof {
            assert(first.take(0) =~= Seq::<Event<E>>::empty());
            assert(currents(found@) =~= first.take(0).filter(pred));
            assert(found@.map_values(|r: &mut Event<E>| *final(r)) =~= Seq::<
                Event<E>,
            >::empty());
            assert(rest@.skip(0) =~= rest@);
        }
        while rest.len() > 0
            invariant
                0 <= seen <= first.len(),
                pred == |ev: Event<E>| ev.includes_spec(*time as int, duration as int),
                rest@ == first.skip(seen),
                currents(found@) == first.take(seen).filter(pred),
                after_borrow(self.events)@ == rewritten(
                    first.take(seen),
                    pred,
                    found@.map_values(|r: &mut Event<E>| *final(r)),
                ) + final(rest)@,
            decreases rest@.len(),
        {
            let ghost had = found@;
            let (head, tail) = rest.split_at_mut(1);
            rest = tail;
            match head.first_mut() {
                Some(ev) => {
                    proof {
                        assert(first.take(seen + 1) =~= first.take(seen).push(*ev));
                        lemma_filter_push(first.take(seen), *ev, pred);
                        assert(first.take(seen + 1).drop_last() =~= first.take(seen));
                    }
                    if ev.includes(time, duration) {
                        found.push(ev);
                        proof {
                            assert(currents(found@) =~= currents(had).push(first[seen]));
                            assert(found@.map_values(|r: &mut Event<E>| *final(r)).drop_last()
                                =~= had.map_values(|r: &mut Event<E>| *final(r)));
                        }
                    }
                },
                None => {},
            }
            proof {
                assert(first.skip(seen + 1) =~= first.skip(seen).subrange(1, first.len() - seen));
                seen = seen + 1;
            }
        }
        proof {
            assert(first.take(seen) =~= first);
        }
        found
    }
}

} // verus!
