use chrono::{DateTime, Duration, Month, TimeZone, Utc};
use planer::planer::calendar::{Calendar, Event, Slot};
use planer::planer::uuid_ref::UuidRef;
use planer::planer::Exam;

fn instant(time: &DateTime<Utc>) -> i64 {
    time.timestamp_nanos_opt().unwrap()
}

fn span(duration: Duration) -> i64 {
    duration.num_nanoseconds().unwrap()
}

#[test]
fn event_includes_time() {
    let event = Event {
        start: instant(&Utc.with_ymd_and_hms(2022, Month::July.number_from_month(), 2, 08, 00, 00).unwrap()),
        duration: span(Duration::hours(1)),
        data: (),
    };

    let time_1 = Utc.with_ymd_and_hms(2022, Month::July.number_from_month(), 2, 08, 30, 00).unwrap();
    let time_2 = Utc.with_ymd_and_hms(2022, Month::July.number_from_month(), 2, 09, 00, 00).unwrap();
    let time_3 = Utc.with_ymd_and_hms(2022, Month::July.number_from_month(), 2, 08, 00, 00).unwrap();
    let time_4 = Utc.with_ymd_and_hms(2022, Month::July.number_from_month(), 2, 10, 00, 00).unwrap();
    let time_5 = Utc.with_ymd_and_hms(2022, Month::July.number_from_month(), 2, 06, 00, 00).unwrap();

    assert!( event.includes_time(&instant(&time_1)), "the event should include {time_1:?}");
    assert!( event.includes_time(&instant(&time_2)), "the event should include {time_2:?} (inclusive at the end)");
    assert!( event.includes_time(&instant(&time_3)), "the event should include {time_3:?} (inclusive at the start)");
    assert!(!event.includes_time(&instant(&time_4)), "the event should not include {time_4:?} (after end)");
    assert!(!event.includes_time(&instant(&time_5)), "the event should not include {time_5:?} (before start)");
}

#[test]
fn event_includes() {
    let event = Event {
        start: instant(&Utc.with_ymd_and_hms(2022, Month::July.number_from_month(), 2, 08, 00, 00).unwrap()),
        duration: span(Duration::hours(1)),
        data: (),
    };

    let time_1 = Utc.with_ymd_and_hms(2022, Month::July.number_from_month(), 2, 08, 30, 00).unwrap();
    let time_2 = Utc.with_ymd_and_hms(2022, Month::July.number_from_month(), 2, 07, 30, 00).unwrap();
    let time_3 = Utc.with_ymd_and_hms(2022, Month::July.number_from_month(), 2, 07, 29, 00).unwrap();
    let time_4 = Utc.with_ymd_and_hms(2022, Month::July.number_from_month(), 2, 09, 01, 00).unwrap();

    let duration = span(Duration::minutes(30));

    assert!( event.includes(&instant(&time_1), duration), "the event should include the 30min range from {time_1:?}");
    assert!( event.includes(&instant(&time_2), duration), "the event should include the 30min range from {time_2:?}");
    assert!(!event.includes(&instant(&time_3), duration), "the event should not include the 30min range from {time_3:?}");
    assert!(!event.includes(&instant(&time_4), duration), "the event should not include the 30min range from {time_4:?}");
}

#[test]
fn event_holds_both_ends_and_not_the_nanosecond_before() {
    let event = Event::new(1_000, 500, ());
    assert!(event.includes_time(&1_000));
    assert!(event.includes_time(&1_500));
    assert!(!event.includes_time(&999));
    assert!(!event.includes_time(&1_501));
}

#[test]
fn event_without_length_holds_its_instant() {
    let event = Event::new(42, 0, ());
    assert!(event.includes_time(&42));
    assert!(!event.includes_time(&41));
    assert!(!event.includes_time(&43));
}

#[test]
fn event_that_runs_backwards_holds_nothing() {
    let event = Event::new(100, -10, ());
    assert!(!event.includes_time(&100));
    assert!(!event.includes_time(&95));
    assert!(!event.includes_time(&90));
}

#[test]
fn event_at_the_end_of_time_does_not_overflow() {
    let event = Event::new(i64::MAX - 1, i64::MAX, ());
    assert!(event.includes_time(&i64::MAX));
    assert!(event.includes(&i64::MAX, i64::MAX));
    let early = Event::new(i64::MIN, i64::MIN, ());
    assert!(!early.includes_time(&i64::MIN));
    assert!(!early.includes(&i64::MIN, 0));
}

#[test]
fn events_that_touch_overlap() {
    let event = Event::new(100, 50, ());
    assert!(event.includes(&150, 10));
    assert!(event.includes(&50, 50));
    assert!(!event.includes(&151, 10));
    assert!(!event.includes(&50, 49));
}

#[test]
fn calendar_answers_by_instant_and_by_range() {
    let mut calendar: Calendar<u8> = Calendar::new();
    assert!(!calendar.is_booked_at(&0));
    calendar.add_event(Event::new(100, 50, 1));
    calendar.add_event(Event::new(120, 10, 2));
    calendar.add_event(Event::new(300, 10, 3));
    assert_eq!(calendar.events().len(), 3);

    assert!(calendar.is_booked_at(&100));
    assert!(calendar.is_booked_at(&150));
    assert!(!calendar.is_booked_at(&151));
    assert!(!calendar.is_booked_at(&299));

    let at: Vec<u8> = calendar.get_events_at(&125).iter().map(|ev| ev.data).collect();
    assert_eq!(at, vec![1, 2]);
    let at_end: Vec<u8> = calendar.get_events_at(&150).iter().map(|ev| ev.data).collect();
    assert_eq!(at_end, vec![1]);
    assert!(calendar.get_events_at(&200).is_empty());

    assert!(calendar.is_booked_from_to(&150, 10));
    assert!(calendar.is_booked_from_to(&290, 10));
    assert!(!calendar.is_booked_from_to(&151, 100));
    let within: Vec<u8> = calendar.get_booked_from_to(&130, 170).iter().map(|ev| ev.data).collect();
    assert_eq!(within, vec![1, 2, 3]);
    let within: Vec<u8> = calendar.get_booked_from_to(&131, 100).iter().map(|ev| ev.data).collect();
    assert_eq!(within, vec![1]);
}

#[test]
fn calendar_does_not_refuse_overlapping_bookings() {
    let mut calendar: Calendar<u8> = Calendar::new();
    calendar.add_event(Event::new(100, 50, 1));
    calendar.add_event(Event::new(100, 50, 1));
    assert_eq!(calendar.events().len(), 2);
}

#[test]
fn bookings_are_changed_in_place() {
    let mut calendar: Calendar<u8> = Calendar::new();
    calendar.add_event(Event::new(100, 50, 1));
    calendar.add_event(Event::new(500, 50, 2));
    calendar.add_event(Event::new(120, 50, 3));
    {
        let mut found = calendar.get_events_at_mut(&130);
        assert_eq!(found.len(), 2);
        found[0].duration = 60;
        found[1].data = 9;
    }
    let events = calendar.events();
    assert_eq!((events[0].start, events[0].duration, events[0].data), (100, 60, 1));
    assert_eq!((events[1].start, events[1].duration, events[1].data), (500, 50, 2));
    assert_eq!((events[2].start, events[2].duration, events[2].data), (120, 50, 9));
    {
        let mut found = calendar.get_booked_from_to_mut(&550, 10);
        assert_eq!(found.len(), 1);
        found[0].start = 0;
    }
    assert_eq!(calendar.events()[1].start, 0);
    assert!(calendar.get_booked_from_to_mut(&10_000, 10).is_empty());
}

#[test]
fn remove_event_takes_the_first_equal_booking() {
    let mut calendar: Calendar<UuidRef<Exam>> = Calendar::new();
    calendar.add_event(Event::new(100, 50, UuidRef::detached(7)));
    calendar.add_event(Event::new(100, 50, UuidRef::detached(8)));
    calendar.add_event(Event::new(100, 50, UuidRef { item: Some(3), ..UuidRef::detached(7) }));
    calendar.add_event(Event::new(100, 51, UuidRef::detached(7)));

    // the handle plays no part: the first booking with the identifier 7 goes
    calendar.remove_event(&Event::new(100, 50, UuidRef { item: Some(9), ..UuidRef::detached(7) }));
    let left: Vec<(i64, u128, Option<usize>)> =
        calendar.events().iter().map(|ev| (ev.duration, ev.data.uuid, ev.data.item)).collect();
    assert_eq!(left, vec![(50, 8, None), (50, 7, Some(3)), (51, 7, None)]);

    // no such booking: nothing happens
    calendar.remove_event(&Event::new(101, 50, UuidRef::detached(7)));
    assert_eq!(calendar.events().len(), 3);
    calendar.remove_event(&Event::new(100, 50, UuidRef::detached(9)));
    assert_eq!(calendar.events().len(), 3);
}

#[test]
fn add_then_remove_restores_the_calendar() {
    let mut calendar: Calendar<UuidRef<Exam>> = Calendar::new();
    calendar.add_event(Event::new(1, 2, UuidRef::detached(3)));
    calendar.add_event(Event::new(4, 5, UuidRef::detached(6)));
    calendar.add_event(Event::new(1, 2, UuidRef::detached(3)));
    calendar.remove_event(&Event::new(1, 2, UuidRef::detached(3)));
    let mut left: Vec<(i64, i64, u128)> =
        calendar.events().iter().map(|ev| (ev.start, ev.duration, ev.data.uuid)).collect();
    left.sort();
    assert_eq!(left, vec![(1, 2, 3), (4, 5, 6)]);
}

#[test]
fn a_slot_is_free_or_started_or_covered() {
    let mut calendar: Calendar<u8> = Calendar::new();
    assert_eq!(calendar.slot_at(&100), Slot::Free);
    calendar.add_event(Event::new(100, 50, 1));
    calendar.add_event(Event::new(300, 10, 2));
    assert_eq!(calendar.slot_at(&99), Slot::Free);
    assert_eq!(calendar.slot_at(&100), Slot::Starts(0));
    assert_eq!(calendar.slot_at(&101), Slot::Covered(0));
    assert_eq!(calendar.slot_at(&150), Slot::Covered(0));
    assert_eq!(calendar.slot_at(&151), Slot::Free);
    assert_eq!(calendar.slot_at(&300), Slot::Starts(1));
    // of several bookings the last counts
    calendar.add_event(Event::new(90, 20, 3));
    assert_eq!(calendar.slot_at(&100), Slot::Covered(2));
    assert_eq!(calendar.slot_at(&90), Slot::Starts(2));
    assert_eq!(calendar.slot_at(&120), Slot::Covered(0));
}
