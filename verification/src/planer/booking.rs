//! Booking and unbooking: one exam, one room, one start, and the calendars
//! of everybody who takes part.

use super::calendar::{
    Event, booking_key, booking_keys, lemma_add_then_remove, lemma_keys_after_add,
    lemma_keys_after_remove, without_first,
};
use super::uuid_ref::{UuidRef, resolve, uuids};
use super::{
    Booking, Exam, ExamModel, PlanModel, PlanerData, RoomModel, Student, StudentModel, Teacher,
    TeacherModel, lemma_student_ids, models, student_ids,
};
use crate::solver::{exam_ids, lemma_exam_ids, lemma_teacher_ids, teacher_ids};
use vstd::prelude::*;

verus! {

/// Where an exam stands in a plan: among the waiting exams or among the
/// booked ones, and at which place there.
#[derive(Clone, Copy, Debug, PartialEq, Eq, Structural)]
pub enum ExamPlace {
    Unfinished(usize),
    Finished(usize),
}

/// The calendars of the students, in their order.
pub open spec fn student_calendars(students: Seq<StudentModel>) -> Seq<Seq<Booking>> {
    Seq::new(students.len(), |i: int| students[i].calendar)
}

/// The students with their calendars replaced by `calendars`.
pub open spec fn students_with(students: Seq<StudentModel>, calendars: Seq<Seq<Booking>>) -> Seq<
    StudentModel,
> {
    Seq::new(students.len(), |i: int| StudentModel { calendar: calendars[i], ..students[i] })
}

/// The calendars of the teachers, in their order.
pub open spec fn teacher_calendars(teachers: Seq<TeacherModel>) -> Seq<Seq<Booking>> {
    Seq::new(teachers.len(), |i: int| teachers[i].calendar)
}

/// The teachers with their calendars replaced by `calendars`.
pub open spec fn teachers_with(teachers: Seq<TeacherModel>, calendars: Seq<Seq<Booking>>) -> Seq<
    TeacherModel,
> {
    Seq::new(teachers.len(), |i: int| TeacherModel { calendar: calendars[i], ..teachers[i] })
}

/// Every reference as a filled slot.
pub open spec fn some_refs<T>(refs: Seq<UuidRef<T>>) -> Seq<Option<UuidRef<T>>> {
    Seq::new(refs.len(), |i: int| Some(refs[i]))
}

/// The place that a slot points to among `count` entities with the
/// identifiers `ids`; `None` for an empty slot and for an unresolved
/// reference.
pub open spec fn slot_place<T>(slot: Option<UuidRef<T>>, ids: Seq<u128>, count: int) -> Option<int> {
    match slot {
        None => None,
        Some(r) => match resolve(r.item, r.uuid, ids) {
            None => None,
            Some(place) => if 0 <= place < count {
                Some(place)
            } else {
                None
            },
        },
    }
}

/// The calendars after `ev` was added once for each of the first `upto`
/// slots that point to somebody.
pub open spec fn with_bookings<T>(
    calendars: Seq<Seq<Booking>>,
    ids: Seq<u128>,
    slots: Seq<Option<UuidRef<T>>>,
    ev: Booking,
    upto: int,
) -> Seq<Seq<Booking>>
    decreases upto,
{
    if upto <= 0 || upto > slots.len() {
        calendars
    } else {
        let before = with_bookings(calendars, ids, slots, ev, upto - 1);
        match slot_place(slots[upto - 1], ids, before.len() as int) {
            Some(place) => before.update(place, before[place].push(ev)),
            None => before,
        }
    }
}

/// The calendars after the first booking with the key of `ev` was removed
/// once for each of the first `upto` slots that point to somebody.
pub open spec fn without_bookings<T>(
    calendars: Seq<Seq<Booking>>,
    ids: Seq<u128>,
    slots: Seq<Option<UuidRef<T>>>,
    ev: Booking,
    upto: int,
) -> Seq<Seq<Booking>>
    decreases upto,
{
    if upto <= 0 || upto > slots.len() {
        calendars
    } else {
        let before = without_bookings(calendars, ids, slots, ev, upto - 1);
        match slot_place(slots[upto - 1], ids, before.len() as int) {
            Some(place) => before.update(place, without_first(before[place], booking_key(ev))),
            None => before,
        }
    }
}

impl PlanModel {
    /// Whether `place` names an exam of the plan.
    pub open spec fn has_place(self, place: ExamPlace) -> bool {
        match place {
            ExamPlace::Unfinished(i) => i < self.unfinished_exams.len(),
            ExamPlace::Finished(i) => i < self.finished_exams.len(),
        }
    }

    /// The exam at `place`.
    pub open spec fn exam_at(self, place: ExamPlace) -> ExamModel {
        match place {
            ExamPlace::Unfinished(i) => self.unfinished_exams[i as int],
            ExamPlace::Finished(i) => self.finished_exams[i as int],
        }
    }

    /// The plan with the exam at `place` replaced by `exam`.
    pub open spec fn with_exam(self, place: ExamPlace, exam: ExamModel) -> PlanModel {
        match place {
            ExamPlace::Unfinished(i) => PlanModel {
                unfinished_exams: self.unfinished_exams.update(i as int, exam),
                ..self
            },
            ExamPlace::Finished(i) => PlanModel {
                finished_exams: self.finished_exams.update(i as int, exam),
                ..self
            },
        }
    }

    /// Where the exam stands that `r` resolves to. The waiting exams are
    /// searched first, then the booked ones.
    pub open spec fn exam_place(self, r: UuidRef<Exam>) -> Option<ExamPlace> {
        match resolve(r.item, r.uuid, exam_ids(self.unfinished_exams)) {
            Some(i) => Some(ExamPlace::Unfinished(i as usize)),
            None => match resolve(r.item, r.uuid, exam_ids(self.finished_exams)) {
                Some(i) => Some(ExamPlace::Finished(i as usize)),
                None => None,
            },
        }
    }

    /// The booking that stands for the exam at `place` from `start` on.
    pub open spec fn booking_of(self, place: ExamPlace, payload: UuidRef<Exam>, start: i64) -> Booking {
        Event { start, duration: self.exam_at(place).duration, data: payload }
    }

    /// The plan after the exam at `place` was booked into the room at
    /// `room` from `start` on: the booking stands in the calendar of every
    /// examinee and every examiner that can be found and in that of the
    /// room, and the exam is paired with the room and the start.
    pub open spec fn booked(self, place: ExamPlace, payload: UuidRef<Exam>, room: int, start: i64) -> PlanModel {
        let exam = self.exam_at(place);
        let ev = self.booking_of(place, payload, start);
        let paired = ExamModel {
            pairing: Some((UuidRef::of(self.rooms[room].uuid, Some(room as usize)), start)),
            ..exam
        };
        (PlanModel {
            students: students_with(
                self.students,
                with_bookings(
                    student_calendars(self.students),
                    student_ids(self.students),
                    some_refs(exam.examinees),
                    ev,
                    exam.examinees.len() as int,
                ),
            ),
            teachers: teachers_with(
                self.teachers,
                with_bookings(
                    teacher_calendars(self.teachers),
                    teacher_ids(self.teachers),
                    exam.examiners,
                    ev,
                    exam.examiners.len() as int,
                ),
            ),
            rooms: self.rooms.update(
                room,
                RoomModel { calendar: self.rooms[room].calendar.push(ev), ..self.rooms[room] },
            ),
            ..self
        }).with_exam(place, paired)
    }

    /// The plan after the booking of the exam at `place` in the room at
    /// `room` from `start` on was taken back: one booking with its key
    /// leaves the calendar of every examinee and every examiner that can
    /// be found and that of the room. The exam keeps its pairing.
    pub open spec fn unbooked(self, place: ExamPlace, payload: UuidRef<Exam>, room: int, start: i64) -> PlanModel {
        let exam = self.exam_at(place);
        let ev = self.booking_of(place, payload, start);
        PlanModel {
            students: students_with(
                self.students,
                without_bookings(
                    student_calendars(self.students),
                    student_ids(self.students),
                    some_refs(exam.examinees),
                    ev,
                    exam.examinees.len() as int,
                ),
            ),
            teachers: teachers_with(
                self.teachers,
                without_bookings(
                    teacher_calendars(self.teachers),
                    teacher_ids(self.teachers),
                    exam.examiners,
                    ev,
                    exam.examiners.len() as int,
                ),
            ),
            rooms: self.rooms.update(
                room,
                RoomModel {
                    calendar: without_first(self.rooms[room].calendar, booking_key(ev)),
                    ..self.rooms[room]
                },
            ),
            ..self
        }
    }

    /// What `book_exam` makes of the plan: the exam that `exam` resolves
    /// to is booked; nothing happens if it resolves to none or if the plan
    /// has no room at `room`.
    pub open spec fn book_exam_spec(self, exam: UuidRef<Exam>, room: usize, start: i64) -> PlanModel {
        match self.exam_place(exam) {
            Some(place) => if room < self.rooms.len() {
                self.booked(place, exam, room as int, start)
            } else {
                self
            },
            None => self,
        }
    }

    /// What `unbook_exam` makes of the plan.
    pub open spec fn unbook_exam_spec(self, exam: UuidRef<Exam>, room: usize, start: i64) -> PlanModel {
        match self.exam_place(exam) {
            Some(place) => if room < self.rooms.len() {
                self.unbooked(place, exam, room as int, start)
            } else {
                self
            },
            None => self,
        }
    }
}

/// Booking and unbooking change calendars, not their number.
pub proof fn lemma_with_bookings_len<T>(
    calendars: Seq<Seq<Booking>>,
    ids: Seq<u128>,
    slots: Seq<Option<UuidRef<T>>>,
    ev: Booking,
    upto: int,
)
    ensures
        with_bookings(calendars, ids, slots, ev, upto).len() == calendars.len(),
        without_bookings(calendars, ids, slots, ev, upto).len() == calendars.len(),
    decreases upto,
{
    if 0 < upto <= slots.len() {
        lemma_with_bookings_len(calendars, ids, slots, ev, upto - 1);
    }
}

fn book_students(
    students: &mut Vec<Student>,
    refs: &Vec<UuidRef<Student>>,
    start: i64,
    duration: i64,
    payload: &UuidRef<Exam>,
)
    ensures
        models(final(students)@) == students_with(
            models(old(students)@),
            with_bookings(
                student_calendars(models(old(students)@)),
                student_ids(models(old(students)@)),
                some_refs(refs@),
                Event { start, duration, data: *payload },
                refs@.len() as int,
            ),
        ),
{
    let ghost first = models(students@);
    let ghost ids = student_ids(first);
    let ghost slots = some_refs(refs@);
    let ghost ev = Event { start, duration, data: *payload };
    let mut i: usize = 0;
    proof {
        lemma_student_ids(students@);
        assert(first =~= students_with(first, student_calendars(first)));
    }
    while i < refs.len()
        invariant
            i <= refs@.len(),
            first == models(old(students)@),
            ids == student_ids(first),
            slots == some_refs(refs@),
            ev == (Event { start, duration, data: *payload }),
            students@.len() == first.len(),
            uuids(students@) == ids,
            models(students@) == students_with(
                first,
                with_bookings(student_calendars(first), ids, slots, ev, i as int),
            ),
        decreases refs@.len() - i,
    {
        let ghost before = with_bookings(student_calendars(first), ids, slots, ev, i as int);
        let ghost was = students@;
        proof {
            lemma_with_bookings_len(student_calendars(first), ids, slots, ev, i as int);
        }
        match refs[i].position(students.as_slice()) {
            Some(place) => {
                students[place].calendar.add_event(Event::new(start, duration, payload.clone()));
                proof {
                    assert(slot_place(slots[i as int], ids, before.len() as int) == Some(
                        place as int,
                    ));
                    assert(uuids(students@) =~= uuids(was));
                    let after = before.update(place as int, before[place as int].push(ev));
                    assert forall|j: int| 0 <= j < first.len() implies models(students@)[j]
                        == students_with(first, after)[j] by {
                        assert(models(was)[j] == students_with(first, before)[j]);
                    }
                    assert(models(students@) =~= students_with(first, after));
                }
            },
            None => {
                assert(slot_place(slots[i as int], ids, before.len() as int) is None);
            },
        }
        i += 1;
    }
}

fn book_teachers(
    teachers: &mut Vec<Teacher>,
    slots: &[Option<UuidRef<Teacher>>; 3],
    start: i64,
    duration: i64,
    payload: &UuidRef<Exam>,
)
    ensures
        models(final(teachers)@) == teachers_with(
            models(old(teachers)@),
            with_bookings(
                teacher_calendars(models(old(teachers)@)),
                teacher_ids(models(old(teachers)@)),
                slots@,
                Event { start, duration, data: *payload },
                slots@.len() as int,
            ),
        ),
{
    let ghost first = models(teachers@);
    let ghost ids = teacher_ids(first);
    let ghost ev = Event { start, duration, data: *payload };
    let mut i: usize = 0;
    proof {
        lemma_teacher_ids(teachers@);
        assert(first =~= teachers_with(first, teacher_calendars(first)));
    }
    while i < 3
        invariant
            i <= 3,
            slots@.len() == 3,
            first == models(old(teachers)@),
            ids == teacher_ids(first),
            ev == (Event { start, duration, data: *payload }),
            teachers@.len() == first.len(),
            uuids(teachers@) == ids,
            models(teachers@) == teachers_with(
                first,
                with_bookings(teacher_calendars(first), ids, slots@, ev, i as int),
            ),
        decreases 3 - i,
    {
        let ghost before = with_bookings(teacher_calendars(first), ids, slots@, ev, i as int);
        let ghost was = teachers@;
        proof {
            lemma_with_bookings_len(teacher_calendars(first), ids, slots@, ev, i as int);
        }
        let place = match &slots[i] {
            Some(examiner) => examiner.position(teachers.as_slice()),
            None => None,
        };
        match place {
            Some(place) => {
                teachers[place].calendar.add_event(Event::new(start, duration, payload.clone()));
                proof {
                    assert(slot_place(slots@[i as int], ids, before.len() as int) == Some(
                        place as int,
                    ));
                    assert(uuids(teachers@) =~= uuids(was));
                    let after = before.update(place as int, before[place as int].push(ev));
                    assert forall|j: int| 0 <= j < first.len() implies models(teachers@)[j]
                        == teachers_with(first, after)[j] by {
                        assert(models(was)[j] == teachers_with(first, before)[j]);
                    }
                    assert(models(teachers@) =~= teachers_with(first, after));
                }
            },
            None => {
                assert(slot_place(slots@[i as int], ids, before.len() as int) is None);
            },
        }
        i += 1;
    }
}

fn unbook_students(
    students: &mut Vec<Student>,
    refs: &Vec<UuidRef<Student>>,
    start: i64,
    duration: i64,
    payload: &UuidRef<Exam>,
)
    ensures
        models(final(students)@) == students_with(
            models(old(students)@),
            without_bookings(
                student_calendars(models(old(students)@)),
                student_ids(models(old(students)@)),
                some_refs(refs@),
                Event { start, duration, data: *payload },
                refs@.len() as int,
            ),
        ),
{
    let ghost first = models(students@);
    let ghost ids = student_ids(first);
    let ghost slots = some_refs(refs@);
    let ghost ev = Event { start, duration, data: *payload };
    let gone = Event::new(start, duration, payload.clone());
    let mut i: usize = 0;
    proof {
        lemma_student_ids(students@);
        assert(first =~= students_with(first, student_calendars(first)));
    }
    while i < refs.len()
        invariant
            i <= refs@.len(),
            first == models(old(students)@),
            ids == student_ids(first),
            slots == some_refs(refs@),
            ev == (Event { start, duration, data: *payload }),
            gone == ev,
            students@.len() == first.len(),
            uuids(students@) == ids,
            models(students@) == students_with(
                first,
                without_bookings(student_calendars(first), ids, slots, ev, i as int),
            ),
        decreases refs@.len() - i,
    {
        let ghost before = without_bookings(student_calendars(first), ids, slots, ev, i as int);
        let ghost was = students@;
        proof {
            lemma_with_bookings_len(student_calendars(first), ids, slots, ev, i as int);
        }
        match refs[i].position(students.as_slice()) {
            Some(place) => {
                students[place].calendar.remove_event(&gone);
                proof {
                    assert(slot_place(slots[i as int], ids, before.len() as int) == Some(
                        place as int,
                    ));
                    assert(uuids(students@) =~= uuids(was));
                    let after = before.update(
                        place as int,
                        without_first(before[place as int], booking_key(ev)),
                    );
                    assert forall|j: int| 0 <= j < first.len() implies models(students@)[j]
                        == students_with(first, after)[j] by {
                        assert(models(was)[j] == students_with(first, before)[j]);
                    }
                    assert(models(students@) =~= students_with(first, after));
                }
            },
            None => {
                assert(slot_place(slots[i as int], ids, before.len() as int) is None);
            },
        }
        i += 1;
    }
}

fn unbook_teachers(
    teachers: &mut Vec<Teacher>,
    slots: &[Option<UuidRef<Teacher>>; 3],
    start: i64,
    duration: i64,
    payload: &UuidRef<Exam>,
)
    ensures
        models(final(teachers)@) == teachers_with(
            models(old(teachers)@),
            without_bookings(
                teacher_calendars(models(old(teachers)@)),
                teacher_ids(models(old(teachers)@)),
                slots@,
                Event { start, duration, data: *payload },
                slots@.len() as int,
            ),
        ),
{
    let ghost first = models(teachers@);
    let ghost ids = teacher_ids(first);
    let ghost ev = Event { start, duration, data: *payload };
    let gone = Event::new(start, duration, payload.clone());
    let mut i: usize = 0;
    proof {
        lemma_teacher_ids(teachers@);
        assert(first =~= teachers_with(first, teacher_calendars(first)));
    }
    while i < 3
        invariant
            i <= 3,
            slots@.len() == 3,
            first == models(old(teachers)@),
            ids == teacher_ids(first),
            ev == (Event { start, duration, data: *payload }),
            gone == ev,
            teachers@.len() == first.len(),
            uuids(teachers@) == ids,
            models(teachers@) == teachers_with(
                first,
                without_bookings(teacher_calendars(first), ids, slots@, ev, i as int),
            ),
        decreases 3 - i,
    {
        let ghost before = without_bookings(teacher_calendars(first), ids, slots@, ev, i as int);
        let ghost was = teachers@;
        proof {
            lemma_with_bookings_len(teacher_calendars(first), ids, slots@, ev, i as int);
        }
        let place = match &slots[i] {
            Some(examiner) => examiner.position(teachers.as_slice()),
            None => None,
        };
        match place {
            Some(place) => {
                teachers[place].calendar.remove_event(&gone);
                proof {
                    assert(slot_place(slots@[i as int], ids, before.len() as int) == Some(
                        place as int,
                    ));
                    assert(uuids(teachers@) =~= uuids(was));
                    let after = before.update(
                        place as int,
                        without_first(before[place as int], booking_key(ev)),
                    );
                    assert forall|j: int| 0 <= j < first.len() implies models(teachers@)[j]
                        == teachers_with(first, after)[j] by {
                        assert(models(was)[j] == teachers_with(first, before)[j]);
                    }
                    assert(models(teachers@) =~= teachers_with(first, after));
                }
            },
            None => {
                assert(slot_place(slots@[i as int], ids, before.len() as int) is None);
            },
        }
        i += 1;
    }
}

impl PlanerData {
    /// Where the exam stands that `exam` resolves to, if it resolves.
    pub fn find_exam(&self, exam: &UuidRef<Exam>) -> (place: Option<ExamPlace>)
        ensures
            place == self@.exam_place(*exam),
            place is Some ==> self@.has_place(place->0),
    {
        proof {
            lemma_exam_ids(self.unfinished_exams@);
            lemma_exam_ids(self.finished_exams@);
        }
        match exam.position(self.unfinished_exams.as_slice()) {
            Some(i) => Some(ExamPlace::Unfinished(i)),
            None => match exam.position(self.finished_exams.as_slice()) {
                Some(i) => Some(ExamPlace::Finished(i)),
                None => None,
            },
        }
    }

    /// Books the exam at `place` into the room at `room` from `start` on;
    /// `payload` is the reference that the bookings carry.
    pub fn book_at(&mut self, place: ExamPlace, payload: UuidRef<Exam>, room: usize, start: i64)
        requires
            old(self)@.has_place(place),
            room < old(self).rooms@.len(),
        ensures
            final(self)@ == old(self)@.booked(place, payload, room as int, start),
    {
        let room_ref = UuidRef::new(&self.rooms[room], room);
        match place {
            ExamPlace::Unfinished(i) => {
                let duration = self.unfinished_exams[i].duration;
                book_students(
                    &mut self.students,
                    &self.unfinished_exams[i].examinees,
                    start,
                    duration,
                    &payload,
                );
                book_teachers(
                    &mut self.teachers,
                    &self.unfinished_exams[i].examiners,
                    start,
                    duration,
                    &payload,
                );
                self.rooms[room].calendar.add_event(Event::new(start, duration, payload));
                self.unfinished_exams[i].pairing = Some((room_ref, start));
                proof {
                    let want = old(self)@.booked(place, payload, room as int, start);
                    assert(self@.rooms =~= want.rooms);
                    assert(self@.unfinished_exams =~= want.unfinished_exams);
                    assert(self@.finished_exams =~= want.finished_exams);
                }
            },
            ExamPlace::Finished(i) => {
                let duration = self.finished_exams[i].duration;
                book_students(
                    &mut self.students,
                    &self.finished_exams[i].examinees,
                    start,
                    duration,
                    &payload,
                );
                book_teachers(
                    &mut self.teachers,
                    &self.finished_exams[i].examiners,
                    start,
                    duration,
                    &payload,
                );
                self.rooms[room].calendar.add_event(Event::new(start, duration, payload));
                self.finished_exams[i].pairing = Some((room_ref, start));
                proof {
                    let want = old(self)@.booked(place, payload, room as int, start);
                    assert(self@.rooms =~= want.rooms);
                    assert(self@.unfinished_exams =~= want.unfinished_exams);
                    assert(self@.finished_exams =~= want.finished_exams);
                }
            },
        }
    }

    /// Books the exam that `exam_ref` resolves to into the room at `room`
    /// from `start_time` on. The booking is added to the calendar of every
    /// examinee and every examiner that can be found, then to that of the
    /// room, and the exam is paired with the room and the start. Nothing is
    /// checked: whether the booking is allowed is the business of the
    /// rules. If the exam cannot be found, or if there is no such room,
    /// nothing happens.
    pub fn book_exam(&mut self, exam_ref: UuidRef<Exam>, room: usize, start_time: i64)
        ensures
            final(self)@ == old(self)@.book_exam_spec(exam_ref, room, start_time),
    {
        match self.find_exam(&exam_ref) {
            Some(place) => {
                if room < self.rooms.len() {
                    self.book_at(place, exam_ref, room, start_time);
                }
            },
            None => {},
        }
    }

    /// Takes back the booking of the exam that `exam_ref` resolves to in
    /// the room at `room` from `start_time` on: one such booking leaves the
    /// calendar of every examinee and every examiner that can be found and
    /// that of the room. The exam keeps its pairing and its place. If the
    /// exam cannot be found, or if there is no such room, nothing happens.
    pub fn unbook_exam(&mut self, exam_ref: UuidRef<Exam>, room: usize, start_time: i64)
        ensures
            final(self)@ == old(self)@.unbook_exam_spec(exam_ref, room, start_time),
    {
        let place = match self.find_exam(&exam_ref) {
            Some(place) => place,
            None => {
                return ;
            },
        };
        if room >= self.rooms.len() {
            return ;
        }
        match place {
            ExamPlace::Unfinished(i) => {
                let duration = self.unfinished_exams[i].duration;
                unbook_students(
                    &mut self.students,
                    &self.unfinished_exams[i].examinees,
                    start_time,
                    duration,
                    &exam_ref,
                );
                unbook_teachers(
                    &mut self.teachers,
                    &self.unfinished_exams[i].examiners,
                    start_time,
                    duration,
                    &exam_ref,
                );
                let gone = Event::new(start_time, duration, exam_ref);
                self.rooms[room].calendar.remove_event(&gone);
                proof {
                    let want = old(self)@.unbooked(place, exam_ref, room as int, start_time);
                    assert(self@.rooms =~= want.rooms);
                }
            },
            ExamPlace::Finished(i) => {
                let duration = self.finished_exams[i].duration;
                unbook_students(
                    &mut self.students,
                    &self.finished_exams[i].examinees,
                    start_time,
                    duration,
                    &exam_ref,
                );
                unbook_teachers(
                    &mut self.teachers,
                    &self.finished_exams[i].examiners,
                    start_time,
                    duration,
                    &exam_ref,
                );
                let gone = Event::new(start_time, duration, exam_ref);
                self.rooms[room].calendar.remove_event(&gone);
                proof {
                    let want = old(self)@.unbooked(place, exam_ref, room as int, start_time);
                    assert(self@.rooms =~= want.rooms);
                }
            },
        }
    }
}

/// How many of the first `upto` slots point to `place`.
pub open spec fn times_named<T>(
    ids: Seq<u128>,
    slots: Seq<Option<UuidRef<T>>>,
    count: int,
    place: int,
    upto: int,
) -> int
    decreases upto,
{
    if upto <= 0 || upto > slots.len() {
        0
    } else {
        times_named(ids, slots, count, place, upto - 1) + if slot_place(slots[upto - 1], ids, count)
            == Some(place) {
            1int
        } else {
            0int
        }
    }
}

/// A count is not negative.
pub proof fn lemma_times_named_bounds<T>(
    ids: Seq<u128>,
    slots: Seq<Option<UuidRef<T>>>,
    count: int,
    place: int,
    upto: int,
)
    ensures
        0 <= times_named(ids, slots, count, place, upto),
    decreases upto,
{
    if 0 < upto <= slots.len() {
        lemma_times_named_bounds(ids, slots, count, place, upto - 1);
    }
}

/// Booking adds the key of the booking to a calendar once for every slot
/// that points to its owner, and no other key.
pub proof fn lemma_with_bookings_keys<T>(
    calendars: Seq<Seq<Booking>>,
    ids: Seq<u128>,
    slots: Seq<Option<UuidRef<T>>>,
    ev: Booking,
    upto: int,
    place: int,
    key: (i64, i64, u128),
)
    requires
        0 <= upto <= slots.len(),
        0 <= place < calendars.len(),
    ensures
        booking_keys(with_bookings(calendars, ids, slots, ev, upto)[place]).count(key)
            == booking_keys(calendars[place]).count(key) + if key == booking_key(ev) {
            times_named(ids, slots, calendars.len() as int, place, upto)
        } else {
            0
        },
    decreases upto,
{
    if upto > 0 {
        lemma_with_bookings_keys(calendars, ids, slots, ev, upto - 1, place, key);
        lemma_with_bookings_len(calendars, ids, slots, ev, upto - 1);
        let before = with_bookings(calendars, ids, slots, ev, upto - 1);
        match slot_place(slots[upto - 1], ids, before.len() as int) {
            Some(named) => {
                if named == place {
                    lemma_keys_after_add(before[place], ev);
                }
            },
            None => {},
        }
    }
}

/// Unbooking takes the key of the booking out of a calendar once for every
/// slot that points to its owner, as long as the calendar holds it, and
/// touches no other key.
pub proof fn lemma_without_bookings_keys<T>(
    calendars: Seq<Seq<Booking>>,
    ids: Seq<u128>,
    slots: Seq<Option<UuidRef<T>>>,
    ev: Booking,
    upto: int,
    place: int,
    key: (i64, i64, u128),
)
    requires
        0 <= upto <= slots.len(),
        0 <= place < calendars.len(),
    ensures
        booking_keys(without_bookings(calendars, ids, slots, ev, upto)[place]).count(key) == if key
            == booking_key(ev) {
            let held = booking_keys(calendars[place]).count(key) - times_named(
                ids,
                slots,
                calendars.len() as int,
                place,
                upto,
            );
            if held > 0 {
                held
            } else {
                0
            }
        } else {
            booking_keys(calendars[place]).count(key) as int
        },
    decreases upto,
{
    lemma_times_named_bounds(ids, slots, calendars.len() as int, place, upto);
    if upto > 0 {
        lemma_without_bookings_keys(calendars, ids, slots, ev, upto - 1, place, key);
        lemma_with_bookings_len(calendars, ids, slots, ev, upto - 1);
        lemma_times_named_bounds(ids, slots, calendars.len() as int, place, upto - 1);
        let before = without_bookings(calendars, ids, slots, ev, upto - 1);
        match slot_place(slots[upto - 1], ids, before.len() as int) {
            Some(named) => {
                if named == place {
                    lemma_keys_after_remove(before[place], booking_key(ev));
                }
            },
            None => {},
        }
    }
}

/// Unbooking for the same slots what was booked for them leaves every
/// calendar, taken as an unordered collection, as it was.
pub proof fn lemma_bookings_undone<T>(
    calendars: Seq<Seq<Booking>>,
    ids: Seq<u128>,
    slots: Seq<Option<UuidRef<T>>>,
    ev: Booking,
    place: int,
)
    requires
        0 <= place < calendars.len(),
    ensures
        booking_keys(
            without_bookings(
                with_bookings(calendars, ids, slots, ev, slots.len() as int),
                ids,
                slots,
                ev,
                slots.len() as int,
            )[place],
        ) == booking_keys(calendars[place]),
{
    let all = slots.len() as int;
    let booked = with_bookings(calendars, ids, slots, ev, all);
    let undone = without_bookings(booked, ids, slots, ev, all);
    lemma_with_bookings_len(calendars, ids, slots, ev, all);
    lemma_times_named_bounds(ids, slots, calendars.len() as int, place, all);
    assert forall|key: (i64, i64, u128)|
        booking_keys(undone[place]).count(key) == booking_keys(calendars[place]).count(key) by {
        lemma_with_bookings_keys(calendars, ids, slots, ev, all, place, key);
        lemma_without_bookings_keys(booked, ids, slots, ev, all, place, key);
    }
    assert(booking_keys(undone[place]) =~= booking_keys(calendars[place]));
}

/// Booking an exam and then unbooking it, for the same room and the same
/// start, leaves the calendar of every student, of every teacher and of
/// every room, taken as an unordered collection of bookings, as it was
/// before the booking.
pub proof fn lemma_unbook_undoes_book(plan: PlanModel, exam: UuidRef<Exam>, room: usize, start: i64)
    ensures
        ({
            let after = plan.book_exam_spec(exam, room, start).unbook_exam_spec(exam, room, start);
            &&& after.students.len() == plan.students.len()
            &&& after.teachers.len() == plan.teachers.len()
            &&& after.rooms.len() == plan.rooms.len()
            &&& forall|p: int|
                0 <= p < plan.students.len() ==> booking_keys(
                    (#[trigger] after.students[p]).calendar,
                ) == booking_keys(plan.students[p].calendar)
            &&& forall|p: int|
                0 <= p < plan.teachers.len() ==> booking_keys(
                    (#[trigger] after.teachers[p]).calendar,
                ) == booking_keys(plan.teachers[p].calendar)
            &&& forall|p: int|
                0 <= p < plan.rooms.len() ==> booking_keys((#[trigger] after.rooms[p]).calendar)
                    == booking_keys(plan.rooms[p].calendar)
        }),
{
    match plan.exam_place(exam) {
        Some(place) => {
            if room < plan.rooms.len() {
                super::uuid_ref::lemma_resolve(exam.item, exam.uuid, exam_ids(plan.unfinished_exams));
                super::uuid_ref::lemma_resolve(exam.item, exam.uuid, exam_ids(plan.finished_exams));
                let booked = plan.booked(place, exam, room as int, start);
                assert(exam_ids(booked.unfinished_exams) =~= exam_ids(plan.unfinished_exams));
                assert(exam_ids(booked.finished_exams) =~= exam_ids(plan.finished_exams));
                assert(booked.exam_place(exam) == Some(place));
                let after = booked.unbooked(place, exam, room as int, start);
                let held = plan.exam_at(place);
                let ev = plan.booking_of(place, exam, start);
                assert(booked.booking_of(place, exam, start) == ev);
                let pupils = some_refs(held.examinees);
                let pupil_ids = student_ids(plan.students);
                let student_books = with_bookings(
                    student_calendars(plan.students),
                    pupil_ids,
                    pupils,
                    ev,
                    pupils.len() as int,
                );
                lemma_with_bookings_len(
                    student_calendars(plan.students),
                    pupil_ids,
                    pupils,
                    ev,
                    pupils.len() as int,
                );
                lemma_with_bookings_len(student_books, pupil_ids, pupils, ev, pupils.len() as int);
                assert(student_calendars(booked.students) =~= student_books);
                assert(student_ids(booked.students) =~= pupil_ids);
                assert forall|p: int| 0 <= p < plan.students.len() implies booking_keys(
                    (#[trigger] after.students[p]).calendar,
                ) == booking_keys(plan.students[p].calendar) by {
                    lemma_bookings_undone(student_calendars(plan.students), pupil_ids, pupils, ev, p);
                }
                let staff_ids = teacher_ids(plan.teachers);
                let teacher_books = with_bookings(
                    teacher_calendars(plan.teachers),
                    staff_ids,
                    held.examiners,
                    ev,
                    held.examiners.len() as int,
                );
                lemma_with_bookings_len(
                    teacher_calendars(plan.teachers),
                    staff_ids,
                    held.examiners,
                    ev,
                    held.examiners.len() as int,
                );
                lemma_with_bookings_len(
                    teacher_books,
                    staff_ids,
                    held.examiners,
                    ev,
                    held.examiners.len() as int,
                );
                assert(teacher_calendars(booked.teachers) =~= teacher_books);
                assert(teacher_ids(booked.teachers) =~= staff_ids);
                assert forall|p: int| 0 <= p < plan.teachers.len() implies booking_keys(
                    (#[trigger] after.teachers[p]).calendar,
                ) == booking_keys(plan.teachers[p].calendar) by {
                    lemma_bookings_undone(
                        teacher_calendars(plan.teachers),
                        staff_ids,
                        held.examiners,
                        ev,
                        p,
                    );
                }
                assert forall|p: int| 0 <= p < plan.rooms.len() implies booking_keys(
                    (#[trigger] after.rooms[p]).calendar,
                ) == booking_keys(plan.rooms[p].calendar) by {
                    if p == room {
                        lemma_add_then_remove(plan.rooms[p].calendar, ev);
                    }
                }
            }
        },
        None => {},
    }
}

/// A booking that stands in a calendar stays there while more are booked,
/// and it stands in the calendar of everybody that a slot points to.
pub proof fn lemma_with_bookings_holds<T>(
    calendars: Seq<Seq<Booking>>,
    ids: Seq<u128>,
    slots: Seq<Option<UuidRef<T>>>,
    ev: Booking,
    upto: int,
)
    requires
        0 <= upto <= slots.len(),
    ensures
        with_bookings(calendars, ids, slots, ev, upto).len() == calendars.len(),
        forall|p: int, held: Booking|
            0 <= p < calendars.len() && calendars[p].contains(held) ==> #[trigger] with_bookings(
                calendars,
                ids,
                slots,
                ev,
                upto,
            )[p].contains(held),
        forall|k: int|
            0 <= k < upto ==> match #[trigger] slot_place(slots[k], ids, calendars.len() as int) {
                Some(p) => with_bookings(calendars, ids, slots, ev, upto)[p].contains(ev),
                None => true,
            },
    decreases upto,
{
    if upto > 0 {
        lemma_with_bookings_holds(calendars, ids, slots, ev, upto - 1);
        let before = with_bookings(calendars, ids, slots, ev, upto - 1);
        let after = with_bookings(calendars, ids, slots, ev, upto);
        match slot_place(slots[upto - 1], ids, before.len() as int) {
            Some(named) => {
                assert(before[named].push(ev)[before[named].len() as int] == ev);
                assert forall|p: int, held: Booking|
                    0 <= p < calendars.len() && calendars[p].contains(held) implies #[trigger] after[p].contains(
                    held,
                ) by {
                    assert(before[p].contains(held));
                    let at = choose|at: int| 0 <= at < before[p].len() && before[p][at] == held;
                    if p == named {
                        assert(before[p].push(ev)[at] == held);
                    }
                }
                assert forall|k: int| 0 <= k < upto implies match #[trigger] slot_place(
                    slots[k],
                    ids,
                    calendars.len() as int,
                ) {
                    Some(p) => after[p].contains(ev),
                    None => true,
                } by {
                    match slot_place(slots[k], ids, calendars.len() as int) {
                        Some(p) => {
                            if p != named {
                                assert(before[p].contains(ev));
                            }
                        },
                        None => {},
                    }
                }
            },
            None => {},
        }
    }
}

/// After a booking the exam is paired with the room and the start, and the
/// booking stands, with that start and the duration of the exam, in the
/// calendar of the room, of every examinee that can be found and of every
/// examiner that can be found.
pub proof fn lemma_booking_stands_in_every_calendar(
    plan: PlanModel,
    place: ExamPlace,
    payload: UuidRef<Exam>,
    room: int,
    start: i64,
)
    requires
        plan.has_place(place),
        0 <= room < plan.rooms.len(),
    ensures
        ({
            let after = plan.booked(place, payload, room, start);
            let exam = plan.exam_at(place);
            let ev = Event { start, duration: exam.duration, data: payload };
            &&& after.exam_at(place).pairing == Some(
                (UuidRef::<super::Room>::of(plan.rooms[room].uuid, Some(room as usize)), start),
            )
            &&& after.rooms[room].calendar.contains(ev)
            &&& forall|k: int|
                0 <= k < exam.examinees.len() ==> match resolve(
                    (#[trigger] exam.examinees[k]).item,
                    exam.examinees[k].uuid,
                    student_ids(plan.students),
                ) {
                    Some(p) => 0 <= p < after.students.len() && after.students[p].calendar.contains(
                        ev,
                    ),
                    None => true,
                }
            &&& forall|k: int|
                0 <= k < exam.examiners.len() ==> match #[trigger] exam.examiners[k] {
                    Some(r) => match resolve(r.item, r.uuid, teacher_ids(plan.teachers)) {
                        Some(p) => 0 <= p < after.teachers.len()
                            && after.teachers[p].calendar.contains(ev),
                        None => true,
                    },
                    None => true,
                }
        }),
{
    let after = plan.booked(place, payload, room, start);
    let exam = plan.exam_at(place);
    let ev = Event { start, duration: exam.duration, data: payload };
    let pupils = some_refs(exam.examinees);
    let pupil_ids = student_ids(plan.students);
    let pupil_books = student_calendars(plan.students);
    let staff_ids = teacher_ids(plan.teachers);
    let staff_books = teacher_calendars(plan.teachers);
    lemma_with_bookings_holds(pupil_books, pupil_ids, pupils, ev, pupils.len() as int);
    lemma_with_bookings_holds(staff_books, staff_ids, exam.examiners, ev, exam.examiners.len() as int);
    let room_books = plan.rooms[room].calendar;
    assert(room_books.push(ev)[room_books.len() as int] == ev);
    assert forall|k: int| 0 <= k < exam.examinees.len() implies match resolve(
        (#[trigger] exam.examinees[k]).item,
        exam.examinees[k].uuid,
        pupil_ids,
    ) {
        Some(p) => 0 <= p < after.students.len() && after.students[p].calendar.contains(ev),
        None => true,
    } by {
        super::uuid_ref::lemma_resolve(exam.examinees[k].item, exam.examinees[k].uuid, pupil_ids);
        assert(pupils[k] == Some(exam.examinees[k]));
        let found = slot_place(pupils[k], pupil_ids, pupil_books.len() as int);
        assert(found == resolve(exam.examinees[k].item, exam.examinees[k].uuid, pupil_ids));
    }
    assert forall|k: int| 0 <= k < exam.examiners.len() implies match #[trigger] exam.examiners[k] {
        Some(r) => match resolve(r.item, r.uuid, staff_ids) {
            Some(p) => 0 <= p < after.teachers.len() && after.teachers[p].calendar.contains(ev),
            None => true,
        },
        None => true,
    } by {
        match exam.examiners[k] {
            Some(r) => {
                super::uuid_ref::lemma_resolve(r.item, r.uuid, staff_ids);
                let found = slot_place(exam.examiners[k], staff_ids, staff_books.len() as int);
                assert(found == resolve(r.item, r.uuid, staff_ids));
            },
            None => {},
        }
    }
}

} // verus!
