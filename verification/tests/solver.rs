use chrono::{TimeZone, Utc};
use planer::planer::calendar::Event;
use planer::planer::uuid_ref::UuidRef;
use planer::planer::{LessonType, PlanerData, Tag, Timetable, TimetableLesson};
use planer::solver::{best_candidate, solve, Constraints, HardConstraint};

const MINUTE: i64 = 60_000_000_000;
const HOUR: i64 = 60 * MINUTE;

fn day() -> i64 {
    Utc.with_ymd_and_hms(2022, 7, 2, 0, 0, 0).unwrap().timestamp_nanos_opt().unwrap()
}

fn lesson(start: i64) -> TimetableLesson {
    TimetableLesson { start, duration: 45 * MINUTE, lesson_type: LessonType::Lesson }
}

fn tag(name: &str, required: bool) -> Tag {
    Tag { name: name.to_string(), required }
}

fn plan_with_slots(starts: &[i64]) -> PlanerData {
    let mut plan = PlanerData::default();
    plan.timetable = Timetable { times: starts.iter().map(|s| lesson(*s)).collect() };
    plan
}

fn booked(plan: &PlanerData) -> Vec<(String, String, i64)> {
    plan.finished_exams
        .iter()
        .map(|exam| {
            let (room, start) = exam.pairing.clone().unwrap();
            (exam.id.clone(), room.get(&plan.rooms).unwrap().number.clone(), start - day())
        })
        .collect()
}

#[test]
fn one_exam_one_room_one_slot() {
    let mut plan = plan_with_slots(&[8 * HOUR]);
    plan.add_room("101".to_string(), vec!["lab".to_string()]);
    plan.add_exam("bio-1".to_string(), 45 * MINUTE, Vec::new(), vec![tag("lab", true)]);
    let uuid = plan.unfinished_exams[0].uuid;

    plan.solve(day());

    assert!(plan.unfinished_exams.is_empty());
    assert_eq!(plan.finished_exams.len(), 1);
    assert_eq!(booked(&plan), vec![("bio-1".to_string(), "101".to_string(), 8 * HOUR)]);
    let eight = Utc.with_ymd_and_hms(2022, 7, 2, 8, 0, 0).unwrap().timestamp_nanos_opt().unwrap();
    assert_eq!(plan.finished_exams[0].pairing.as_ref().unwrap().1, eight);
    let events = plan.rooms[0].calendar.events();
    assert_eq!(events.len(), 1);
    assert_eq!((events[0].start, events[0].duration, events[0].data.uuid), (eight, 45 * MINUTE, uuid));
    assert_eq!(events[0].data.get(&plan.finished_exams).unwrap().id, "bio-1");
    assert_eq!(plan.finished_exams[0].error, None);
}

#[test]
fn a_shared_examiner_is_booked_once() {
    let mut plan = plan_with_slots(&[8 * HOUR]);
    plan.add_teacher("Anna".to_string(), "Schmidt".to_string(), None, None, &[]);
    plan.add_room("101".to_string(), Vec::new());
    plan.add_room("102".to_string(), Vec::new());
    plan.add_exam("bio-1".to_string(), 45 * MINUTE, Vec::new(), Vec::new());
    plan.add_exam("chem-2".to_string(), 45 * MINUTE, Vec::new(), Vec::new());
    let examiner = UuidRef::new(&plan.teachers[0], 0);
    plan.unfinished_exams[0].examiners[0] = Some(examiner.clone());
    plan.unfinished_exams[1].examiners[0] = Some(examiner);

    let result = solve(&mut plan, day());

    let run = match result {
        Ok(_) => panic!("the second exam cannot be booked"),
        Err(run) => run,
    };
    assert_eq!(run.finished_exams.len(), 1);
    assert_eq!(run.finished_exams[0].get(&plan.finished_exams).unwrap().id, "bio-1");
    assert_eq!(booked(&plan), vec![("bio-1".to_string(), "101".to_string(), 8 * HOUR)]);
    assert_eq!(plan.unfinished_exams.len(), 1);
    assert_eq!(plan.unfinished_exams[0].id, "chem-2");
    assert!(plan.unfinished_exams[0].pairing.is_none());
    assert_eq!(plan.teachers[0].calendar.events().len(), 1);
    assert!(plan.rooms[1].calendar.events().is_empty());

    // it is the examiner that keeps the second room from being used
    let start = day() + 8 * HOUR;
    let verdict = plan.constraints.apply_hard(
        &plan.unfinished_exams[0],
        &(&plan.rooms[1], &start),
        false,
        &plan.teachers,
        &plan.finished_exams,
    );
    assert_eq!(
        verdict,
        Err("the following people are already booked:\nAnna Schmidt: bio-1".to_string())
    );
    assert_eq!(best_candidate(&plan, day()), None);
}

#[test]
fn without_the_shared_examiner_both_are_booked() {
    let mut plan = plan_with_slots(&[8 * HOUR]);
    plan.add_room("101".to_string(), Vec::new());
    plan.add_room("102".to_string(), Vec::new());
    plan.add_exam("bio-1".to_string(), 45 * MINUTE, Vec::new(), Vec::new());
    plan.add_exam("chem-2".to_string(), 45 * MINUTE, Vec::new(), Vec::new());
    let result = solve(&mut plan, day());
    let run = match result {
        Ok(run) => run,
        Err(_) => panic!("both exams can be booked"),
    };
    let ids: Vec<String> = run
        .finished_exams
        .iter()
        .map(|r| r.get(&plan.finished_exams).unwrap().id.clone())
        .collect();
    assert_eq!(ids, vec!["bio-1".to_string(), "chem-2".to_string()]);
    assert_eq!(
        booked(&plan),
        vec![
            ("bio-1".to_string(), "101".to_string(), 8 * HOUR),
            ("chem-2".to_string(), "102".to_string(), 8 * HOUR)
        ]
    );
}

#[test]
fn the_best_candidate_of_all_exams_is_booked_first() {
    let mut plan = plan_with_slots(&[8 * HOUR, 9 * HOUR]);
    plan.add_room("plain".to_string(), Vec::new());
    plan.add_room("lab".to_string(), vec!["lab".to_string(), "sink".to_string()]);
    plan.add_exam("a".to_string(), 45 * MINUTE, Vec::new(), Vec::new());
    plan.add_exam("b".to_string(), 45 * MINUTE, Vec::new(), vec![tag("sink", false)]);
    plan.add_exam("c".to_string(), 45 * MINUTE, Vec::new(), vec![tag("lab", true)]);

    assert_eq!(best_candidate(&plan, day()), Some((2, 1, 0, day() + 8 * HOUR)));
    let result = solve(&mut plan, day());
    assert!(result.is_ok());
    // c scores 2 and goes first, then b with 1 in the lab at nine, then a
    // with 0 at the first candidate that is tried
    assert_eq!(
        booked(&plan),
        vec![
            ("c".to_string(), "lab".to_string(), 8 * HOUR),
            ("b".to_string(), "lab".to_string(), 9 * HOUR),
            ("a".to_string(), "plain".to_string(), 8 * HOUR)
        ]
    );
}

#[test]
fn of_equal_candidates_the_first_tried_is_booked() {
    let mut plan = plan_with_slots(&[10 * HOUR, 8 * HOUR]);
    plan.add_room("101".to_string(), Vec::new());
    plan.add_room("102".to_string(), Vec::new());
    plan.add_exam("a".to_string(), 45 * MINUTE, Vec::new(), Vec::new());
    plan.add_exam("b".to_string(), 45 * MINUTE, Vec::new(), Vec::new());
    plan.add_exam("c".to_string(), 45 * MINUTE, Vec::new(), Vec::new());
    assert!(solve(&mut plan, day()).is_ok());
    // exams in their order; for each the first room, and in it the first
    // slot of the timetable that is free, whatever its time of day
    assert_eq!(
        booked(&plan),
        vec![
            ("a".to_string(), "101".to_string(), 10 * HOUR),
            ("b".to_string(), "101".to_string(), 8 * HOUR),
            ("c".to_string(), "102".to_string(), 10 * HOUR)
        ]
    );
}

#[test]
fn bookings_that_touch_are_refused() {
    // the second slot starts at the instant at which the first exam ends
    let mut plan = plan_with_slots(&[8 * HOUR, 8 * HOUR + 45 * MINUTE, 8 * HOUR + 45 * MINUTE + 1]);
    plan.add_room("101".to_string(), Vec::new());
    plan.add_exam("a".to_string(), 45 * MINUTE, Vec::new(), Vec::new());
    plan.add_exam("b".to_string(), 45 * MINUTE, Vec::new(), Vec::new());
    assert!(solve(&mut plan, day()).is_ok());
    assert_eq!(
        booked(&plan),
        vec![
            ("a".to_string(), "101".to_string(), 8 * HOUR),
            ("b".to_string(), "101".to_string(), 8 * HOUR + 45 * MINUTE + 1)
        ]
    );
}

#[test]
fn a_break_is_a_slot_like_any_other() {
    let mut plan = PlanerData::default();
    plan.timetable = Timetable {
        times: vec![TimetableLesson {
            start: 12 * HOUR,
            duration: 45 * MINUTE,
            lesson_type: LessonType::Break,
        }],
    };
    plan.add_room("101".to_string(), Vec::new());
    plan.add_exam("a".to_string(), 45 * MINUTE, Vec::new(), Vec::new());
    assert!(solve(&mut plan, day()).is_ok());
    assert_eq!(booked(&plan), vec![("a".to_string(), "101".to_string(), 12 * HOUR)]);
}

#[test]
fn nothing_to_book() {
    let mut plan = PlanerData::default();
    plan.add_room("101".to_string(), Vec::new());
    let result = solve(&mut plan, day());
    assert!(matches!(result, Ok(run) if run.finished_exams.is_empty()));
    assert_eq!(best_candidate(&plan, day()), None);
}

#[test]
fn stuck_without_rooms_or_slots() {
    let mut plan = PlanerData::default();
    plan.add_exam("a".to_string(), 45 * MINUTE, Vec::new(), Vec::new());
    let result = solve(&mut plan, day());
    assert!(matches!(result, Err(run) if run.finished_exams.is_empty()));
    assert_eq!(plan.unfinished_exams.len(), 1);

    let mut plan = plan_with_slots(&[]);
    plan.add_room("101".to_string(), Vec::new());
    plan.add_exam("a".to_string(), 45 * MINUTE, Vec::new(), Vec::new());
    assert!(solve(&mut plan, day()).is_err());
    assert!(plan.finished_exams.is_empty());
    assert!(plan.rooms[0].calendar.events().is_empty());
}

#[test]
fn what_was_booked_before_the_run_got_stuck_stays_booked() {
    let mut plan = plan_with_slots(&[8 * HOUR]);
    plan.add_room("101".to_string(), Vec::new());
    plan.add_exam("needs a lab".to_string(), 45 * MINUTE, Vec::new(), vec![tag("lab", true)]);
    plan.add_exam("a".to_string(), 45 * MINUTE, Vec::new(), Vec::new());
    plan.add_exam("b".to_string(), 45 * MINUTE, Vec::new(), Vec::new());
    plan.solve(day());
    assert_eq!(booked(&plan), vec![("a".to_string(), "101".to_string(), 8 * HOUR)]);
    let waiting: Vec<String> = plan.unfinished_exams.iter().map(|e| e.id.clone()).collect();
    assert_eq!(waiting, vec!["needs a lab".to_string(), "b".to_string()]);
}

#[test]
fn a_slot_beyond_the_end_of_time_is_no_candidate() {
    let mut plan = plan_with_slots(&[i64::MAX, 8 * HOUR]);
    plan.add_room("101".to_string(), Vec::new());
    plan.add_exam("a".to_string(), 45 * MINUTE, Vec::new(), Vec::new());
    assert!(solve(&mut plan, day()).is_ok());
    assert_eq!(booked(&plan), vec![("a".to_string(), "101".to_string(), 8 * HOUR)]);
}

#[test]
fn the_run_books_students_and_teachers_too() {
    let mut plan = plan_with_slots(&[8 * HOUR]);
    plan.add_student("S".to_string(), "One".to_string(), None);
    plan.add_teacher("T".to_string(), "One".to_string(), None, None, &[]);
    plan.add_room("101".to_string(), Vec::new());
    plan.add_exam("a".to_string(), 30 * MINUTE, Vec::new(), Vec::new());
    let student = UuidRef::new(&plan.students[0], 0);
    let teacher = UuidRef::new(&plan.teachers[0], 0);
    plan.unfinished_exams[0].examinees.push(student);
    plan.unfinished_exams[0].examiners[2] = Some(teacher);
    plan.solve(day());
    let want = (day() + 8 * HOUR, 30 * MINUTE, plan.finished_exams[0].uuid);
    for events in [
        plan.students[0].calendar.events(),
        plan.teachers[0].calendar.events(),
        plan.rooms[0].calendar.events(),
    ] {
        assert_eq!(events.len(), 1);
        assert_eq!((events[0].start, events[0].duration, events[0].data.uuid), want);
    }
}

#[test]
fn the_rules_of_the_plan_decide() {
    let mut plan = plan_with_slots(&[8 * HOUR]);
    plan.add_room("101".to_string(), Vec::new());
    plan.add_exam("a".to_string(), 45 * MINUTE, Vec::new(), vec![tag("lab", true)]);
    plan.add_exam("b".to_string(), 45 * MINUTE, Vec::new(), Vec::new());
    // with the room rule alone the tag is not asked for
    plan.constraints = Constraints { hard: vec![HardConstraint::RoomFree], soft: Vec::new() };
    assert!(solve(&mut plan, day()).is_err());
    assert_eq!(booked(&plan), vec![("a".to_string(), "101".to_string(), 8 * HOUR)]);
    // without rules everything is booked at the first candidate
    plan.constraints = Constraints { hard: Vec::new(), soft: Vec::new() };
    assert!(solve(&mut plan, day()).is_ok());
    assert_eq!(plan.rooms[0].calendar.events().len(), 2);
}

#[test]
fn a_room_that_is_taken_by_hand_is_left_alone() {
    let mut plan = plan_with_slots(&[8 * HOUR, 9 * HOUR]);
    plan.add_room("101".to_string(), Vec::new());
    plan.rooms[0].calendar.add_event(Event::new(day() + 8 * HOUR, 10, UuidRef::detached(1)));
    plan.add_exam("a".to_string(), 45 * MINUTE, Vec::new(), Vec::new());
    plan.solve(day());
    assert_eq!(booked(&plan), vec![("a".to_string(), "101".to_string(), 9 * HOUR)]);
}
