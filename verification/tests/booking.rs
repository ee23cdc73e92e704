use planer::planer::booking::ExamPlace;
use planer::planer::calendar::Event;
use planer::planer::uuid_ref::UuidRef;
use planer::planer::{Exam, PlanerData};

fn keys(events: &[Event<UuidRef<Exam>>]) -> Vec<(i64, i64, u128)> {
    let mut keys: Vec<(i64, i64, u128)> =
        events.iter().map(|ev| (ev.start, ev.duration, ev.data.uuid)).collect();
    keys.sort();
    keys
}

fn all_keys(plan: &PlanerData) -> Vec<Vec<(i64, i64, u128)>> {
    let mut all = Vec::new();
    for student in &plan.students {
        all.push(keys(student.calendar.events()));
    }
    for teacher in &plan.teachers {
        all.push(keys(teacher.calendar.events()));
    }
    for room in &plan.rooms {
        all.push(keys(room.calendar.events()));
    }
    all
}

fn plan() -> PlanerData {
    let mut plan = PlanerData::default();
    plan.add_student_with_uuid(10, "S".to_string(), "One".to_string(), None);
    plan.add_student_with_uuid(11, "S".to_string(), "Two".to_string(), None);
    plan.add_student_with_uuid(12, "S".to_string(), "Three".to_string(), None);
    plan.add_teacher_with_uuid(20, "T".to_string(), "One".to_string(), None, None, &[]);
    plan.add_teacher_with_uuid(21, "T".to_string(), "Two".to_string(), None, None, &[]);
    plan.add_room_with_uuid(30, "101".to_string(), Vec::new());
    plan.add_room_with_uuid(31, "102".to_string(), Vec::new());
    plan.add_exam_with_uuid(40, "bio-1".to_string(), 45, Vec::new(), Vec::new());
    plan.add_exam_with_uuid(41, "chem-2".to_string(), 30, Vec::new(), Vec::new());
    let exam = &mut plan.unfinished_exams[1];
    exam.examinees.push(UuidRef::new(&plan.students[2], 2));
    exam.examinees.push(UuidRef::new(&plan.students[0], 0));
    exam.examinees.push(UuidRef::detached(11));
    exam.examinees.push(UuidRef { item: Some(1), ..UuidRef::detached(99) });
    exam.examiners[0] = Some(UuidRef::new(&plan.teachers[1], 1));
    exam.examiners[2] = Some(UuidRef::detached(20));
    plan
}

#[test]
fn booking_reaches_every_participant_that_can_be_found() {
    let mut plan = plan();
    let exam = UuidRef::new(&plan.unfinished_exams[1], 1);
    plan.book_exam(exam, 1, 1_000);

    assert_eq!(keys(plan.students[0].calendar.events()), vec![(1_000, 30, 41)]);
    // the reference to the second student was never attached
    assert!(plan.students[1].calendar.events().is_empty());
    assert_eq!(keys(plan.students[2].calendar.events()), vec![(1_000, 30, 41)]);
    // the reference to the first teacher was never attached
    assert!(plan.teachers[0].calendar.events().is_empty());
    assert_eq!(keys(plan.teachers[1].calendar.events()), vec![(1_000, 30, 41)]);
    assert!(plan.rooms[0].calendar.events().is_empty());
    assert_eq!(keys(plan.rooms[1].calendar.events()), vec![(1_000, 30, 41)]);

    // the exam is paired and stays where it is
    let (room, start) = plan.unfinished_exams[1].pairing.clone().unwrap();
    assert_eq!((room.uuid, room.item, start), (31, Some(1), 1_000));
    assert_eq!(room.get(&plan.rooms).unwrap().number, "102");
    assert!(plan.unfinished_exams[0].pairing.is_none());
    assert!(plan.finished_exams.is_empty());
    // the bookings carry the reference that was handed in
    assert_eq!(plan.rooms[1].calendar.events()[0].data.item, Some(1));
}

#[test]
fn booking_checks_nothing() {
    let mut plan = plan();
    let exam = UuidRef::new(&plan.unfinished_exams[0], 0);
    plan.book_exam(exam.clone(), 0, 500);
    plan.book_exam(exam, 0, 500);
    assert_eq!(keys(plan.rooms[0].calendar.events()), vec![(500, 45, 40), (500, 45, 40)]);
}

#[test]
fn booking_an_exam_that_cannot_be_found_does_nothing() {
    let mut plan = plan();
    let before = all_keys(&plan);
    plan.book_exam(UuidRef::detached(41), 0, 1_000);
    plan.book_exam(UuidRef { item: Some(0), ..UuidRef::detached(50) }, 0, 1_000);
    plan.book_exam(UuidRef::null(), 0, 1_000);
    assert_eq!(all_keys(&plan), before);
    assert!(plan.unfinished_exams.iter().all(|e| e.pairing.is_none()));
}

#[test]
fn booking_into_a_room_that_is_not_there_does_nothing() {
    let mut plan = plan();
    let before = all_keys(&plan);
    let exam = UuidRef::new(&plan.unfinished_exams[1], 1);
    plan.book_exam(exam.clone(), 2, 1_000);
    plan.unbook_exam(exam, 2, 1_000);
    assert_eq!(all_keys(&plan), before);
    assert!(plan.unfinished_exams[1].pairing.is_none());
}

#[test]
fn a_booked_exam_can_be_booked_where_it_stands() {
    let mut plan = plan();
    plan.finish_exam(UuidRef::detached(41));
    assert_eq!(plan.find_exam(&UuidRef::detached(41)), None);
    let exam = UuidRef::new(&plan.finished_exams[0], 0);
    assert_eq!(plan.find_exam(&exam), Some(ExamPlace::Finished(0)));
    assert_eq!(
        plan.find_exam(&UuidRef { item: Some(5), ..UuidRef::detached(40) }),
        Some(ExamPlace::Unfinished(0))
    );
    plan.book_exam(exam, 0, 7);
    assert_eq!(keys(plan.rooms[0].calendar.events()), vec![(7, 30, 41)]);
    assert_eq!(plan.finished_exams[0].pairing.as_ref().unwrap().1, 7);
}

#[test]
fn unbooking_undoes_a_booking() {
    let mut plan = plan();
    // some bookings are there before
    plan.students[0].calendar.add_event(Event::new(1_000, 30, UuidRef::detached(41)));
    plan.students[0].calendar.add_event(Event::new(5, 5, UuidRef::detached(77)));
    plan.teachers[1].calendar.add_event(Event::new(1_000, 30, UuidRef::detached(40)));
    plan.rooms[1].calendar.add_event(Event::new(1_001, 30, UuidRef::detached(41)));
    let before = all_keys(&plan);

    let exam = UuidRef::new(&plan.unfinished_exams[1], 1);
    plan.book_exam(exam.clone(), 1, 1_000);
    assert_ne!(all_keys(&plan), before);
    plan.unbook_exam(exam, 1, 1_000);
    assert_eq!(all_keys(&plan), before);
    // the pairing is left for the caller to clear
    assert!(plan.unfinished_exams[1].pairing.is_some());
}

#[test]
fn unbooking_takes_one_booking_for_each_mention() {
    let mut plan = plan();
    let mention = UuidRef::new(&plan.students[0], 0);
    plan.unfinished_exams[1].examinees.push(mention);
    let exam = UuidRef::new(&plan.unfinished_exams[1], 1);
    plan.book_exam(exam.clone(), 0, 1_000);
    assert_eq!(keys(plan.students[0].calendar.events()), vec![(1_000, 30, 41), (1_000, 30, 41)]);
    plan.unbook_exam(exam.clone(), 0, 1_000);
    assert!(plan.students[0].calendar.events().is_empty());
    assert!(plan.rooms[0].calendar.events().is_empty());
    // nothing is left to take
    plan.unbook_exam(exam, 0, 1_000);
    assert!(plan.students.iter().all(|s| s.calendar.events().is_empty()));
}

#[test]
fn unbooking_another_start_takes_nothing() {
    let mut plan = plan();
    let exam = UuidRef::new(&plan.unfinished_exams[1], 1);
    plan.book_exam(exam.clone(), 0, 1_000);
    let booked = all_keys(&plan);
    plan.unbook_exam(exam, 0, 1_001);
    assert_eq!(all_keys(&plan), booked);
}

#[test]
fn booking_at_a_place() {
    let mut plan = plan();
    plan.book_at(ExamPlace::Unfinished(0), UuidRef::detached(40), 1, 9);
    assert_eq!(keys(plan.rooms[1].calendar.events()), vec![(9, 45, 40)]);
    assert_eq!(plan.rooms[1].calendar.events()[0].data.item, None);
    assert_eq!(plan.unfinished_exams[0].pairing.as_ref().unwrap().0.uuid, 31);
}
