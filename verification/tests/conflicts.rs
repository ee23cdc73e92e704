use planer::planer::calendar::Event;
use planer::planer::uuid_ref::UuidRef;
use planer::planer::{Exam, LessonType, PlanerData, Tag, Timetable, TimetableLesson};

const MINUTE: i64 = 60_000_000_000;
const DAY: i64 = 1_656_720_000_000_000_000;

fn booked_plan() -> PlanerData {
    let mut plan = PlanerData::default();
    plan.timetable = Timetable {
        times: vec![TimetableLesson {
            start: 8 * 60 * MINUTE,
            duration: 45 * MINUTE,
            lesson_type: LessonType::Lesson,
        }],
    };
    plan.add_teacher("Anna".to_string(), "Schmidt".to_string(), None, None, &[]);
    plan.add_room("101".to_string(), vec!["lab".to_string(), "sink".to_string()]);
    plan.add_exam(
        "bio-1".to_string(),
        45 * MINUTE,
        Vec::new(),
        vec![
            Tag { name: "lab".to_string(), required: true },
            Tag { name: "sink".to_string(), required: false },
        ],
    );
    let examiner = UuidRef::new(&plan.teachers[0], 0);
    plan.unfinished_exams[0].examiners[0] = Some(examiner);
    plan.solve(DAY);
    assert_eq!(plan.finished_exams.len(), 1);
    plan
}

#[test]
fn a_lost_tag_is_noted_on_the_exam() {
    let mut plan = booked_plan();
    assert_eq!(plan.finished_exams[0].error, None);
    let pairing = plan.finished_exams[0].pairing.clone().unwrap();

    plan.rooms[0].tags.retain(|tag| tag != "lab");
    plan.compute_conflicts();

    let error = plan.finished_exams[0].error.clone().unwrap();
    assert!(!error.is_empty());
    assert_eq!(error, "the following required tags are missing from the room:\n - lab");
    let after = plan.finished_exams[0].pairing.clone().unwrap();
    assert_eq!((after.0.uuid, after.0.item, after.1), (pairing.0.uuid, pairing.0.item, pairing.1));
    assert_eq!(plan.rooms[0].calendar.events().len(), 1);
    assert!(plan.unfinished_exams.is_empty());
}

#[test]
fn a_lost_preference_is_no_conflict() {
    let mut plan = booked_plan();
    plan.rooms[0].tags.retain(|tag| tag != "sink");
    plan.compute_conflicts();
    assert_eq!(plan.finished_exams[0].error, None);
}

#[test]
fn the_own_booking_in_the_room_is_no_conflict() {
    let mut plan = booked_plan();
    plan.compute_conflicts();
    assert_eq!(plan.finished_exams[0].error, None);
}

#[test]
fn an_error_goes_away_with_its_reason() {
    let mut plan = booked_plan();
    plan.rooms[0].tags.clear();
    plan.compute_conflicts();
    assert!(plan.finished_exams[0].error.is_some());
    plan.rooms[0].tags.push("lab".to_string());
    plan.compute_conflicts();
    assert_eq!(plan.finished_exams[0].error, None);
}

#[test]
fn an_examiner_who_is_booked_elsewhere_is_noted() {
    let mut plan = booked_plan();
    plan.add_exam("chem-2".to_string(), 10 * MINUTE, Vec::new(), Vec::new());
    plan.finish_exam(UuidRef::detached(plan.unfinished_exams[0].uuid));
    let other = UuidRef::new(&plan.finished_exams[1], 1);
    plan.teachers[0].calendar.add_event(Event::new(DAY + 8 * 60 * MINUTE + 45 * MINUTE, 10, other));
    plan.compute_conflicts();
    assert_eq!(
        plan.finished_exams[0].error,
        Some("the following people are already booked:\nAnna Schmidt: chem-2".to_string())
    );
    // the other exam has no pairing: nothing is noted on it
    assert_eq!(plan.finished_exams[1].error, None);
}

#[test]
fn recomputing_twice_is_recomputing_once() {
    let mut plan = booked_plan();
    plan.rooms[0].tags.clear();
    plan.compute_conflicts();
    let once = plan.finished_exams[0].error.clone();
    plan.compute_conflicts();
    assert_eq!(plan.finished_exams[0].error, once);
    assert!(once.is_some());

    let mut consistent = booked_plan();
    consistent.compute_conflicts();
    consistent.compute_conflicts();
    assert_eq!(consistent.finished_exams[0].error, None);
}

#[test]
fn an_exam_without_pairing_or_room_keeps_its_note() {
    let mut plan = booked_plan();
    plan.finished_exams[0].error = Some("old".to_string());
    plan.rooms.clear();
    plan.compute_conflicts();
    assert_eq!(plan.finished_exams[0].error, Some("old".to_string()));
    plan.finished_exams[0].pairing = None;
    plan.compute_conflicts();
    assert_eq!(plan.finished_exams[0].error, Some("old".to_string()));
}

#[test]
fn conflicts_are_recomputed_when_a_change_was_noted() {
    let mut plan = booked_plan();
    plan.rooms[0].tags.clear();
    plan.recompute_if_scheduled();
    assert_eq!(plan.finished_exams[0].error, None);
    plan.schedule_recompute();
    plan.recompute_if_scheduled();
    assert!(plan.finished_exams[0].error.is_some());
    assert!(!plan.needs_recompute);
}

#[test]
fn waiting_exams_are_not_checked() {
    let mut plan = booked_plan();
    plan.add_exam(
        "w".to_string(),
        MINUTE,
        Vec::new(),
        vec![Tag { name: "pool".to_string(), required: true }],
    );
    plan.compute_conflicts();
    assert_eq!(plan.unfinished_exams[0].error, None);
}

#[test]
fn a_loaded_plan_is_checked_once_it_is_revalidated() {
    // as a plan comes from a file: every reference knows its identifier only
    let mut plan = PlanerData::default();
    plan.add_room_with_uuid(30, "101".to_string(), Vec::new());
    let mut exam = Exam::new(
        41,
        "bio-1".to_string(),
        45 * MINUTE,
        Vec::new(),
        vec![Tag { name: "lab".to_string(), required: true }],
    );
    exam.pairing = Some((UuidRef::detached(30), DAY));
    plan.finished_exams.push(exam);
    plan.rooms[0].calendar.add_event(Event::new(DAY, 45 * MINUTE, UuidRef::detached(41)));

    // before the references are attached the room cannot be found
    plan.compute_conflicts();
    assert_eq!(plan.finished_exams[0].error, None);

    plan.revalidate();
    plan.compute_conflicts();
    assert_eq!(
        plan.finished_exams[0].error,
        Some("the following required tags are missing from the room:\n - lab".to_string())
    );
    assert_eq!(plan.finished_exams[0].pairing.as_ref().unwrap().1, DAY);
}
