use chrono::{TimeZone, Utc};
use planer::planer::calendar::Event;
use planer::planer::uuid_ref::UuidRef;
use planer::planer::{Exam, Name, Room, Tag, Teacher};
use planer::solver::{
    check_examiners_free, check_required_tags, check_room_free, clashing_bookings,
    room_booked_message, score_matching_tags, Constraints, HardConstraint, SoftConstraint,
};

const MINUTE: i64 = 60_000_000_000;

fn eight() -> i64 {
    Utc.with_ymd_and_hms(2022, 7, 2, 8, 0, 0).unwrap().timestamp_nanos_opt().unwrap()
}

fn tag(name: &str, required: bool) -> Tag {
    Tag { name: name.to_string(), required }
}

fn room_with_tags(number: &str, tags: &[&str]) -> Room {
    Room::new(1, number.to_string(), tags.iter().map(|t| t.to_string()).collect())
}

fn exam_with_tags(tags: Vec<Tag>) -> Exam {
    Exam::new(100, "bio-1".to_string(), 45 * MINUTE, Vec::new(), tags)
}

fn teacher(uuid: u128, first: &str, last: &str) -> Teacher {
    Teacher::new(
        Name::new(uuid, first.to_string(), last.to_string(), None),
        last.to_string(),
        Vec::new(),
    )
}

#[test]
fn the_default_rules() {
    let rules = Constraints::default();
    assert_eq!(
        rules.hard,
        vec![HardConstraint::RoomFree, HardConstraint::RequiredTags, HardConstraint::ExaminersFree]
    );
    assert_eq!(rules.soft, vec![SoftConstraint::MatchingTags]);
}

#[test]
fn a_room_with_every_required_tag_passes() {
    let exam = exam_with_tags(vec![tag("lab", true), tag("quiet", false)]);
    let room = room_with_tags("101", &["lab"]);
    assert_eq!(check_required_tags(&exam, &room), None);
    let rules = Constraints::default();
    assert_eq!(rules.apply_hard(&exam, &(&room, &eight()), false, &[], &[]), Ok(()));
}

#[test]
fn a_room_that_lacks_a_required_tag_fails_with_the_names_of_the_tags() {
    let exam = exam_with_tags(vec![
        tag("lab", true),
        tag("quiet", false),
        tag("sink", true),
        tag("beamer", true),
    ]);
    let room = room_with_tags("101", &["beamer"]);
    assert_eq!(
        check_required_tags(&exam, &room),
        Some("the following required tags are missing from the room:\n - lab\n - sink".to_string())
    );
    let rules = Constraints::default();
    assert_eq!(
        rules.apply_hard(&exam, &(&room, &eight()), false, &[], &[]),
        Err("the following required tags are missing from the room:\n - lab\n - sink".to_string())
    );
    // a booking that is already made is asked the same
    assert!(rules.apply_hard(&exam, &(&room, &eight()), true, &[], &[]).is_err());
}

#[test]
fn an_exam_without_tags_passes_in_any_room() {
    let exam = exam_with_tags(Vec::new());
    assert_eq!(check_required_tags(&exam, &room_with_tags("1", &[])), None);
    assert_eq!(check_required_tags(&exam, &room_with_tags("1", &["lab"])), None);
}

#[test]
fn the_message_of_a_taken_room() {
    assert_eq!(
        room_booked_message("101", "2022-07-02 08:00:00 UTC"),
        "the room 101 is already booked at 2022-07-02 08:00:00 UTC"
    );
    assert_eq!(room_booked_message("", ""), "the room  is already booked at ");
}

#[test]
fn a_taken_room_fails_with_its_number_and_the_time() {
    let exam = exam_with_tags(Vec::new());
    let mut room = room_with_tags("101", &[]);
    room.calendar.add_event(Event::new(eight() + 45 * MINUTE, 30 * MINUTE, UuidRef::detached(5)));
    // the end of the exam touches the start of the booking
    assert_eq!(
        check_room_free(&exam, &room, &eight(), false),
        Some("the room 101 is already booked at 2022-07-02 08:00:00 UTC".to_string())
    );
    // one nanosecond earlier the two no longer touch
    assert_eq!(check_room_free(&exam, &room, &(eight() - 1), false), None);
    // a booking that is already made is not asked
    assert_eq!(check_room_free(&exam, &room, &eight(), true), None);
}

#[test]
fn the_time_of_a_taken_room_is_written_in_utc() {
    let exam = exam_with_tags(Vec::new());
    let mut room = room_with_tags("A 3", &[]);
    room.calendar.add_event(Event::new(0, 10, UuidRef::detached(5)));
    assert_eq!(
        check_room_free(&exam, &room, &0, false),
        Some("the room A 3 is already booked at 1970-01-01 00:00:00 UTC".to_string())
    );
    assert_eq!(
        check_room_free(&exam, &room, &-1, false),
        Some("the room A 3 is already booked at 1969-12-31 23:59:59.999999999 UTC".to_string())
    );
}

#[test]
fn the_first_failing_rule_speaks() {
    let exam = exam_with_tags(vec![tag("lab", true)]);
    let mut room = room_with_tags("101", &[]);
    room.calendar.add_event(Event::new(eight(), 10, UuidRef::detached(5)));
    let rules = Constraints::default();
    assert_eq!(
        rules.apply_hard(&exam, &(&room, &eight()), false, &[], &[]),
        Err("the room 101 is already booked at 2022-07-02 08:00:00 UTC".to_string())
    );
    let swapped = Constraints {
        hard: vec![HardConstraint::RequiredTags, HardConstraint::RoomFree],
        soft: Vec::new(),
    };
    assert_eq!(
        swapped.apply_hard(&exam, &(&room, &eight()), false, &[], &[]),
        Err("the following required tags are missing from the room:\n - lab".to_string())
    );
    let none = Constraints { hard: Vec::new(), soft: Vec::new() };
    assert_eq!(none.apply_hard(&exam, &(&room, &eight()), false, &[], &[]), Ok(()));
    assert_eq!(none.apply_soft(&exam, &(&room, &eight())), 0);
}

#[test]
fn a_busy_examiner_fails_with_the_name_and_the_exams() {
    let mut teachers = vec![teacher(1, "Anna", "Schmidt"), teacher(2, "Bert", "Maier")];
    let others = vec![
        Exam::new(200, "chem-2".to_string(), 45 * MINUTE, Vec::new(), Vec::new()),
        Exam::new(300, "phy-3".to_string(), 45 * MINUTE, Vec::new(), Vec::new()),
    ];
    teachers[0].calendar.add_event(Event::new(eight(), 45 * MINUTE, UuidRef::new(&others[0], 0)));
    teachers[0]
        .calendar
        .add_event(Event::new(eight() + 30 * MINUTE, 45 * MINUTE, UuidRef::new(&others[1], 1)));
    teachers[0].name.title = Some("Dr.".to_string());

    let mut exam = exam_with_tags(Vec::new());
    exam.examiners[0] = Some(UuidRef::new(&teachers[1], 1));
    exam.examiners[2] = Some(UuidRef::new(&teachers[0], 0));
    assert_eq!(
        check_examiners_free(&exam, &eight(), &teachers, &others),
        Some("the following people are already booked:\nAnna Dr. Schmidt: chem-2, phy-3".to_string())
    );
    let rules = Constraints::default();
    let room = room_with_tags("101", &[]);
    assert_eq!(
        rules.apply_hard(&exam, &(&room, &eight()), true, &teachers, &others),
        Err("the following people are already booked:\nAnna Dr. Schmidt: chem-2, phy-3".to_string())
    );
    // after the bookings the examiner is free
    assert_eq!(check_examiners_free(&exam, &(eight() + 76 * MINUTE), &teachers, &others), None);
}

#[test]
fn two_busy_examiners_are_named_in_the_order_of_their_slots() {
    let mut teachers = vec![teacher(1, "Anna", "Schmidt"), teacher(2, "Bert", "Maier")];
    let others = vec![Exam::new(200, "chem-2".to_string(), 45 * MINUTE, Vec::new(), Vec::new())];
    teachers[0].calendar.add_event(Event::new(eight(), 10, UuidRef::new(&others[0], 0)));
    teachers[1].calendar.add_event(Event::new(eight(), 10, UuidRef::new(&others[0], 0)));
    let mut exam = exam_with_tags(Vec::new());
    exam.examiners[0] = Some(UuidRef::new(&teachers[1], 1));
    exam.examiners[1] = Some(UuidRef::new(&teachers[0], 0));
    assert_eq!(
        check_examiners_free(&exam, &eight(), &teachers, &others),
        Some(
            "the following people are already booked:\nBert Maier: chem-2\nAnna Schmidt: chem-2"
                .to_string()
        )
    );
}

#[test]
fn the_own_booking_of_an_exam_is_no_conflict() {
    let mut teachers = vec![teacher(1, "Anna", "Schmidt")];
    let mut exam = exam_with_tags(Vec::new());
    exam.examiners[0] = Some(UuidRef::new(&teachers[0], 0));
    teachers[0].calendar.add_event(Event::new(eight(), 45 * MINUTE, UuidRef::detached(exam.uuid)));
    assert_eq!(check_examiners_free(&exam, &eight(), &teachers, &[]), None);
}

#[test]
fn an_examiner_that_cannot_be_found_is_passed_over() {
    let mut teachers = vec![teacher(1, "Anna", "Schmidt")];
    teachers[0].calendar.add_event(Event::new(eight(), 10, UuidRef::detached(200)));
    let mut exam = exam_with_tags(Vec::new());
    // detached: the reference was never attached
    exam.examiners[0] = Some(UuidRef::detached(1));
    // gone: no teacher has this identifier
    exam.examiners[1] = Some(UuidRef { item: Some(0), ..UuidRef::detached(9) });
    assert_eq!(check_examiners_free(&exam, &eight(), &teachers, &[]), None);
}

#[test]
fn a_clashing_booking_whose_exam_is_gone_still_clashes() {
    let mut teachers = vec![teacher(1, "Anna", "Schmidt")];
    teachers[0].calendar.add_event(Event::new(eight(), 10, UuidRef::detached(200)));
    let mut exam = exam_with_tags(Vec::new());
    exam.examiners[0] = Some(UuidRef::new(&teachers[0], 0));
    assert_eq!(
        check_examiners_free(&exam, &eight(), &teachers, &[]),
        Some("the following people are already booked:\nAnna Schmidt: ".to_string())
    );
    let found = clashing_bookings(teachers[0].calendar.events(), exam.uuid, &eight(), 10, &[]);
    assert_eq!(found, (true, Vec::<String>::new()));
    let found = clashing_bookings(teachers[0].calendar.events(), 200, &eight(), 10, &[]);
    assert_eq!(found, (false, Vec::<String>::new()));
}

#[test]
fn the_score_counts_two_for_a_required_and_one_for_another_tag() {
    let exam = exam_with_tags(vec![
        tag("lab", true),
        tag("quiet", false),
        tag("sink", true),
        tag("beamer", false),
    ]);
    assert_eq!(score_matching_tags(&exam, &room_with_tags("1", &[])), 0);
    assert_eq!(score_matching_tags(&exam, &room_with_tags("1", &["lab"])), 2);
    assert_eq!(score_matching_tags(&exam, &room_with_tags("1", &["quiet"])), 1);
    assert_eq!(score_matching_tags(&exam, &room_with_tags("1", &["sink", "quiet", "lab"])), 5);
    assert_eq!(
        score_matching_tags(&exam, &room_with_tags("1", &["sink", "quiet", "lab", "beamer", "x"])),
        6
    );
    let rules = Constraints::default();
    let room = room_with_tags("1", &["sink", "quiet"]);
    assert_eq!(rules.apply_soft(&exam, &(&room, &eight())), 3);
    assert_eq!(SoftConstraint::MatchingTags.score(&exam, &room, &eight()), 3);
    let twice = Constraints {
        hard: Vec::new(),
        soft: vec![SoftConstraint::MatchingTags, SoftConstraint::MatchingTags],
    };
    assert_eq!(twice.apply_soft(&exam, &(&room, &eight())), 6);
}

#[test]
fn a_tag_that_is_listed_twice_counts_twice() {
    let exam = exam_with_tags(vec![tag("lab", true), tag("lab", true)]);
    assert_eq!(score_matching_tags(&exam, &room_with_tags("1", &["lab", "lab"])), 4);
    assert_eq!(
        check_required_tags(&exam, &room_with_tags("1", &[])),
        Some("the following required tags are missing from the room:\n - lab\n - lab".to_string())
    );
}

#[test]
fn each_rule_answers_for_itself() {
    let exam = exam_with_tags(vec![tag("lab", true)]);
    let room = room_with_tags("7", &[]);
    assert_eq!(HardConstraint::RoomFree.check(&exam, &room, &eight(), false, &[], &[]), None);
    assert_eq!(
        HardConstraint::RequiredTags.check(&exam, &room, &eight(), false, &[], &[]),
        Some("the following required tags are missing from the room:\n - lab".to_string())
    );
    assert_eq!(HardConstraint::ExaminersFree.check(&exam, &room, &eight(), false, &[], &[]), None);
}
