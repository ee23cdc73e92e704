//! The plan: people, rooms, exams and the timetable of one day.
//!
//! Every entity lives in exactly one collection of [`PlanerData`]. Whatever
//! else needs it holds a [`UuidRef`], which names the entity by its
//! identifier and resolves to nothing once the entity is gone.

pub mod booking;
pub mod calendar;
pub mod conflicts;
pub mod uuid_ref;

use self::calendar::{Calendar, Event};
use self::uuid_ref::{AsUuid, UuidRef, fresh_uuid, is_random_uuid, uuids};
use crate::solver::{Constraints, HardConstraint, SoftConstraint};
use crate::text::{optional_text, strings};
use vstd::prelude::*;

verus! {

/// The mathematical values of a sequence of entities.
pub open spec fn models<T: View>(list: Seq<T>) -> Seq<T::V> {
    Seq::new(list.len(), |i: int| list[i]@)
}

/// A booking in a calendar of the plan: its payload names the exam.
pub type Booking = Event<UuidRef<Exam>>;

pub const NANOS_PER_SECOND: i64 = 1_000_000_000;

pub const NANOS_PER_MINUTE: i64 = 60_000_000_000;

/// The name of a person, with the identifier of that person.
#[derive(Debug)]
pub struct Name {
    pub uuid: u128,
    pub first: String,
    pub last: String,
    pub title: Option<String>,
}

/// A name as a mathematical value.
pub struct NameModel {
    pub uuid: u128,
    pub first: Seq<char>,
    pub last: Seq<char>,
    pub title: Option<Seq<char>>,
}

impl NameModel {
    /// First name, title if there is one, last name, with one space between
    /// them.
    pub open spec fn text(self) -> Seq<char> {
        match self.title {
            Some(title) => self.first + " "@ + title + " "@ + self.last,
            None => self.first + " "@ + self.last,
        }
    }
}

impl View for Name {
    type V = NameModel;

    open spec fn view(&self) -> NameModel {
        NameModel {
            uuid: self.uuid,
            first: self.first@,
            last: self.last@,
            title: optional_text(self.title),
        }
    }
}

impl Clone for Name {
    fn clone(&self) -> (copy: Self)
        ensures
            copy@ == self@,
    {
        Name {
            uuid: self.uuid,
            first: self.first.clone(),
            last: self.last.clone(),
            title: match &self.title {
                Some(title) => Some(title.clone()),
                None => None,
            },
        }
    }
}

impl Name {
    pub fn new(uuid: u128, first: String, last: String, title: Option<String>) -> (name: Self)
        ensures
            name.uuid == uuid,
            name.first == first,
            name.last == last,
            name.title == title,
    {
        Name { uuid, first, last, title }
    }

    /// The name as it is shown.
    pub fn to_text(&self) -> (text: String)
        ensures
            text@ == self@.text(),
    {
        let mut text = self.first.clone();
        match &self.title {
            Some(title) => {
                text.append(" ");
                text.append(title.as_str());
            },
            None => {},
        }
        text.append(" ");
        text.append(self.last.as_str());
        text
    }
}

/// A property that an exam asks of its room: demanded if `required`,
/// otherwise only preferred.
#[derive(Debug)]
pub struct Tag {
    pub name: String,
    pub required: bool,
}

/// A tag as a mathematical value.
pub struct TagModel {
    pub name: Seq<char>,
    pub required: bool,
}

impl View for Tag {
    type V = TagModel;

    open spec fn view(&self) -> TagModel {
        TagModel { name: self.name@, required: self.required }
    }
}

/// What a slot of the day is there for.
#[derive(Clone, Copy, Debug, PartialEq, Eq, Structural)]
pub enum LessonType {
    Lesson,
    Break,
}

/// One slot of the day: `start` is the time of day in nanoseconds after
/// midnight, `duration` its length in nanoseconds.
#[derive(Clone, Copy, Debug)]
pub struct TimetableLesson {
    pub start: i64,
    pub duration: i64,
    pub lesson_type: LessonType,
}

/// The slots of a day, in their order. They are the only times at which an
/// exam can start.
#[derive(Debug)]
pub struct Timetable {
    pub times: Vec<TimetableLesson>,
}

/// A slot of three quarters of an hour that starts at `hour`:`minute`.
pub open spec fn school_slot(hour: int, minute: int, lesson_type: LessonType) -> TimetableLesson {
    TimetableLesson {
        start: ((hour * 60 + minute) * NANOS_PER_MINUTE) as i64,
        duration: (45 * NANOS_PER_MINUTE) as i64,
        lesson_type,
    }
}

/// The day that a new plan starts with: five lessons, the midday break and
/// five more lessons.
pub open spec fn default_times() -> Seq<TimetableLesson> {
    seq![
        school_slot(8, 0, LessonType::Lesson),
        school_slot(8, 50, LessonType::Lesson),
        school_slot(9, 40, LessonType::Lesson),
        school_slot(10, 40, LessonType::Lesson),
        school_slot(11, 30, LessonType::Lesson),
        school_slot(12, 15, LessonType::Break),
        school_slot(13, 5, LessonType::Lesson),
        school_slot(13, 55, LessonType::Lesson),
        school_slot(14, 45, LessonType::Lesson),
        school_slot(15, 30, LessonType::Lesson),
        school_slot(16, 15, LessonType::Lesson),
    ]
}

fn slot(hour: i64, minute: i64, lesson_type: LessonType) -> (lesson: TimetableLesson)
    requires
        0 <= hour < 24,
        0 <= minute < 60,
    ensures
        lesson == school_slot(hour as int, minute as int, lesson_type),
{
    TimetableLesson {
        start: (hour * 60 + minute) * NANOS_PER_MINUTE,
        duration: 45 * NANOS_PER_MINUTE,
        lesson_type,
    }
}

impl Default for Timetable {
    fn default() -> (timetable: Self)
        ensures
            timetable.times@ == default_times(),
    {
        let mut times: Vec<TimetableLesson> = Vec::new();
        times.push(slot(8, 0, LessonType::Lesson));
        times.push(slot(8, 50, LessonType::Lesson));
        times.push(slot(9, 40, LessonType::Lesson));
        times.push(slot(10, 40, LessonType::Lesson));
        times.push(slot(11, 30, LessonType::Lesson));
        times.push(slot(12, 15, LessonType::Break));
        times.push(slot(13, 5, LessonType::Lesson));
        times.push(slot(13, 55, LessonType::Lesson));
        times.push(slot(14, 45, LessonType::Lesson));
        times.push(slot(15, 30, LessonType::Lesson));
        times.push(slot(16, 15, LessonType::Lesson));
        assert(times@ =~= default_times());
        Self { times }
    }
}

/// A room with its label, what it offers and its bookings.
#[derive(Debug)]
pub struct Room {
    pub uuid: u128,
    pub calendar: Calendar<UuidRef<Exam>>,
    pub number: String,
    pub tags: Vec<String>,
}

/// A room as a mathematical value.
pub struct RoomModel {
    pub uuid: u128,
    pub calendar: Seq<Booking>,
    pub number: Seq<char>,
    pub tags: Seq<Seq<char>>,
}

impl View for Room {
    type V = RoomModel;

    open spec fn view(&self) -> RoomModel {
        RoomModel {
            uuid: self.uuid,
            calendar: self.calendar@,
            number: self.number@,
            tags: strings(self.tags@),
        }
    }
}

impl AsUuid for Room {
    open spec fn uuid_spec(&self) -> u128 {
        self.uuid
    }

    fn as_uuid(&self) -> (id: u128) {
        self.uuid
    }
}

impl Room {
    pub fn new(uuid: u128, number: String, tags: Vec<String>) -> (room: Self)
        ensures
            room.uuid == uuid,
            room.number == number,
            room.tags == tags,
            room.calendar@ == Seq::<Booking>::empty(),
    {
        Room { uuid, calendar: Calendar::new(), number, tags }
    }

    /// Revalidates the bookings of the room against `exams`.
    pub fn revalidate(&mut self, exams: &[Exam])
        ensures
            final(self)@ == (RoomModel {
                calendar: calendar::revalidated_events(old(self)@.calendar, uuid_ref::uuids(exams@)),
                ..old(self)@
            }),
    {
        self.calendar.revalidate(exams)
    }
}

/// An exam: what is to be scheduled.
#[derive(Debug)]
pub struct Exam {
    pub duration: i64,
    pub uuid: u128,
    pub id: String,
    pub pinned: bool,
    pub examinees: Vec<UuidRef<Student>>,
    pub examiners: [Option<UuidRef<Teacher>>; 3],
    pub subjects: Vec<String>,
    pub tags: Vec<Tag>,
    /// The room and the start that the exam is booked for, if it is booked.
    pub pairing: Option<(UuidRef<Room>, i64)>,
    /// What the last check found wrong with the booking. Never stored.
    pub error: Option<String>,
}

/// An exam as a mathematical value.
pub struct ExamModel {
    pub duration: i64,
    pub uuid: u128,
    pub id: Seq<char>,
    pub pinned: bool,
    pub examinees: Seq<UuidRef<Student>>,
    pub examiners: Seq<Option<UuidRef<Teacher>>>,
    pub subjects: Seq<Seq<char>>,
    pub tags: Seq<TagModel>,
    pub pairing: Option<(UuidRef<Room>, i64)>,
    pub error: Option<Seq<char>>,
}

impl View for Exam {
    type V = ExamModel;

    open spec fn view(&self) -> ExamModel {
        ExamModel {
            duration: self.duration,
            uuid: self.uuid,
            id: self.id@,
            pinned: self.pinned,
            examinees: self.examinees@,
            examiners: self.examiners@,
            subjects: strings(self.subjects@),
            tags: models(self.tags@),
            pairing: self.pairing,
            error: optional_text(self.error),
        }
    }
}

impl AsUuid for Exam {
    open spec fn uuid_spec(&self) -> u128 {
        self.uuid
    }

    fn as_uuid(&self) -> (id: u128) {
        self.uuid
    }
}

/// The examiner slots with each reference revalidated against `ids`.
pub open spec fn revalidated_slots<T>(slots: Seq<Option<UuidRef<T>>>, ids: Seq<u128>) -> Seq<
    Option<UuidRef<T>>,
> {
    Seq::new(
        slots.len(),
        |i: int|
            match slots[i] {
                Some(r) => Some(r.revalidated(ids)),
                None => None,
            },
    )
}

/// The references with each one revalidated against `ids`.
pub open spec fn revalidated_refs<T>(refs: Seq<UuidRef<T>>, ids: Seq<u128>) -> Seq<UuidRef<T>> {
    Seq::new(refs.len(), |i: int| refs[i].revalidated(ids))
}

/// The pairing with its room revalidated against `ids`; the start stays.
pub open spec fn revalidated_pairing(pairing: Option<(UuidRef<Room>, i64)>, ids: Seq<u128>) -> Option<
    (UuidRef<Room>, i64),
> {
    match pairing {
        Some((room, start)) => Some((room.revalidated(ids), start)),
        None => None,
    }
}

impl Exam {
    /// A new exam without participants, tags apart, and without a booking.
    pub fn new(uuid: u128, id: String, duration: i64, subjects: Vec<String>, tags: Vec<Tag>) -> (exam:
        Self)
        ensures
            exam@ == (ExamModel {
                duration,
                uuid,
                id: id@,
                pinned: false,
                examinees: Seq::empty(),
                examiners: seq![None, None, None],
                subjects: strings(subjects@),
                tags: models(tags@),
                pairing: None,
                error: None,
            }),
    {
        let exam = Exam {
            duration,
            uuid,
            id,
            pinned: false,
            examinees: Vec::new(),
            examiners: [None, None, None],
            subjects,
            tags,
            pairing: None,
            error: None,
        };
        assert(exam.examiners@ =~= seq![None, None, None]);
        exam
    }

    /// Revalidates every reference of the exam: the examinees against
    /// `students`, the examiners against `teachers` and the room of the
    /// pairing against `rooms`.
    pub fn revalidate(&mut self, students: &[Student], teachers: &[Teacher], rooms: &[Room])
        ensures
            final(self)@ == (ExamModel {
                examinees: revalidated_refs(old(self)@.examinees, uuid_ref::uuids(students@)),
                examiners: revalidated_slots(old(self)@.examiners, uuid_ref::uuids(teachers@)),
                pairing: revalidated_pairing(old(self)@.pairing, uuid_ref::uuids(rooms@)),
                ..old(self)@
            }),
    {
        let ghost student_ids = uuid_ref::uuids(students@);
        let ghost teacher_ids = uuid_ref::uuids(teachers@);
        let mut i: usize = 0;
        while i < self.examinees.len()
            invariant
                i <= self.examinees@.len(),
                student_ids == uuid_ref::uuids(students@),
                self.examinees@.len() == old(self).examinees@.len(),
                forall|j: int|
                    0 <= j < i ==> self.examinees@[j] == old(self).examinees@[j].revalidated(
                        student_ids,
                    ),
                forall|j: int|
                    i <= j < self.examinees@.len() ==> self.examinees@[j] == old(self).examinees@[j],
                *self == (Exam { examinees: self.examinees, ..*old(self) }),
            decreases self.examinees@.len() - i,
        {
            self.examinees[i].revalidate(students);
            i += 1;
        }
        assert(self.examinees@ =~= revalidated_refs(old(self).examinees@, student_ids));
        let mut k: usize = 0;
        while k < 3
            invariant
                k <= 3,
                teacher_ids == uuid_ref::uuids(teachers@),
                self.examinees@ == revalidated_refs(old(self).examinees@, student_ids),
                forall|j: int|
                    0 <= j < k ==> self.examiners@[j] == revalidated_slots(
                        old(self).examiners@,
                        teacher_ids,
                    )[j],
                forall|j: int| k <= j < 3 ==> self.examiners@[j] == old(self).examiners@[j],
                *self == (Exam { examiners: self.examiners, examinees: self.examinees, ..*old(self) }),
            decreases 3 - k,
        {
            match &mut self.examiners[k] {
                Some(teacher) => {
                    teacher.revalidate(teachers);
                },
                None => {},
            }
            k += 1;
        }
        assert(self.examiners@ =~= revalidated_slots(old(self).examiners@, teacher_ids));
        match &mut self.pairing {
            Some(pair) => {
                pair.0.revalidate(rooms);
            },
            None => {},
        }
    }
}

/// A student: somebody who is examined.
#[derive(Debug)]
pub struct Student {
    pub name: Name,
    pub calendar: Calendar<UuidRef<Exam>>,
}

/// A student as a mathematical value.
pub struct StudentModel {
    pub name: NameModel,
    pub calendar: Seq<Booking>,
}

impl View for Student {
    type V = StudentModel;

    open spec fn view(&self) -> StudentModel {
        StudentModel { name: self.name@, calendar: self.calendar@ }
    }
}

impl AsUuid for Student {
    open spec fn uuid_spec(&self) -> u128 {
        self.name.uuid
    }

    fn as_uuid(&self) -> (id: u128) {
        self.name.uuid
    }
}

impl Student {
    pub fn new(name: Name) -> (student: Self)
        ensures
            student.name == name,
            student.calendar@ == Seq::<Booking>::empty(),
    {
        Student { name, calendar: Calendar::new() }
    }

    /// Revalidates the bookings of the student against `data`.
    pub fn revalidate(&mut self, data: &[Exam])
        ensures
            final(self)@ == (StudentModel {
                calendar: calendar::revalidated_events(old(self)@.calendar, uuid_ref::uuids(data@)),
                ..old(self)@
            }),
    {
        self.calendar.revalidate(data);
    }
}

/// A teacher: somebody who examines.
#[derive(Debug)]
pub struct Teacher {
    pub name: Name,
    pub shorthand: String,
    pub calendar: Calendar<UuidRef<Exam>>,
    pub subjects: Vec<String>,
}

/// A teacher as a mathematical value.
pub struct TeacherModel {
    pub name: NameModel,
    pub shorthand: Seq<char>,
    pub calendar: Seq<Booking>,
    pub subjects: Seq<Seq<char>>,
}

impl View for Teacher {
    type V = TeacherModel;

    open spec fn view(&self) -> TeacherModel {
        TeacherModel {
            name: self.name@,
            shorthand: self.shorthand@,
            calendar: self.calendar@,
            subjects: strings(self.subjects@),
        }
    }
}

impl AsUuid for Teacher {
    open spec fn uuid_spec(&self) -> u128 {
        self.name.uuid
    }

    fn as_uuid(&self) -> (id: u128) {
        self.name.uuid
    }
}

impl Teacher {
    pub fn new(name: Name, shorthand: String, subjects: Vec<String>) -> (teacher: Self)
        ensures
            teacher.name == name,
            teacher.shorthand == shorthand,
            teacher.subjects == subjects,
            teacher.calendar@ == Seq::<Booking>::empty(),
    {
        Teacher { name, shorthand, calendar: Calendar::new(), subjects }
    }

    /// Revalidates the bookings of the teacher against `data`.
    pub fn revalidate(&mut self, data: &[Exam])
        ensures
            final(self)@ == (TeacherModel {
                calendar: calendar::revalidated_events(old(self)@.calendar, uuid_ref::uuids(data@)),
                ..old(self)@
            }),
    {
        self.calendar.revalidate(data);
    }
}

/// How many bytes the character takes in UTF-8.
pub open spec fn utf8_width(c: char) -> int {
    if (c as u32) < 0x80 {
        1
    } else if (c as u32) < 0x800 {
        2
    } else if (c as u32) < 0x10000 {
        3
    } else {
        4
    }
}

/// The shorthand of a teacher who was given none: the longest start of the
/// last name that takes at most two bytes in UTF-8.
pub open spec fn default_shorthand(last: Seq<char>) -> Seq<char> {
    if last.len() == 0 || utf8_width(last[0]) > 2 {
        Seq::empty()
    } else if utf8_width(last[0]) == 2 || last.len() == 1 || utf8_width(last[1]) > 1 {
        last.subrange(0, 1)
    } else {
        last.subrange(0, 2)
    }
}

fn is_one_byte(c: char) -> (one: bool)
    ensures
        one == (utf8_width(c) == 1),
{
    (c as u32) < 0x80
}

fn is_at_most_two_bytes(c: char) -> (small: bool)
    ensures
        small == (utf8_width(c) <= 2),
{
    (c as u32) < 0x800
}

/// The shorthand that a teacher with the last name `last` gets if none is
/// given.
pub fn shorthand_of(last: &str) -> (shorthand: String)
    ensures
        shorthand@ == default_shorthand(last@),
{
    let len = last.unicode_len();
    if len == 0 {
        return String::new();
    }
    let first = last.get_char(0);
    if !is_at_most_two_bytes(first) {
        return String::new();
    }
    if !is_one_byte(first) || len == 1 {
        return last.substring_char(0, 1).to_owned();
    }
    let second = last.get_char(1);
    if is_one_byte(second) {
        last.substring_char(0, 2).to_owned()
    } else {
        last.substring_char(0, 1).to_owned()
    }
}

/// A plan: the people, the rooms, the exams that wait to be booked, the
/// exams that are booked, the timetable of the day and the rules.
pub struct PlanerData {
    pub students: Vec<Student>,
    pub teachers: Vec<Teacher>,
    pub unfinished_exams: Vec<Exam>,
    pub finished_exams: Vec<Exam>,
    pub rooms: Vec<Room>,
    pub timetable: Timetable,
    pub constraints: Constraints,
    /// Where the plan is stored, if it was ever stored or loaded as a plan.
    pub current_file_name: Option<String>,
    /// Whether the bookings were changed since their conflicts were last
    /// computed.
    pub needs_recompute: bool,
}

/// A plan as a mathematical value.
pub struct PlanModel {
    pub students: Seq<StudentModel>,
    pub teachers: Seq<TeacherModel>,
    pub unfinished_exams: Seq<ExamModel>,
    pub finished_exams: Seq<ExamModel>,
    pub rooms: Seq<RoomModel>,
    pub timetable: Seq<TimetableLesson>,
    pub hard: Seq<HardConstraint>,
    pub soft: Seq<SoftConstraint>,
    pub current_file_name: Option<Seq<char>>,
    pub needs_recompute: bool,
}

impl View for PlanerData {
    type V = PlanModel;

    open spec fn view(&self) -> PlanModel {
        PlanModel {
            students: models(self.students@),
            teachers: models(self.teachers@),
            unfinished_exams: models(self.unfinished_exams@),
            finished_exams: models(self.finished_exams@),
            rooms: models(self.rooms@),
            timetable: self.timetable.times@,
            hard: self.constraints.hard@,
            soft: self.constraints.soft@,
            current_file_name: optional_text(self.current_file_name),
            needs_recompute: self.needs_recompute,
        }
    }
}

/// The bookings of a calendar of the plan after revalidation: each payload
/// is attached to the booked exam with its identifier; where there is none,
/// to the waiting exam with its identifier; and where there is none either,
/// it is left detached.
pub open spec fn revalidated_bookings(
    events: Seq<Booking>,
    booked: Seq<u128>,
    waiting: Seq<u128>,
) -> Seq<Booking> {
    calendar::revalidated_detached_events(calendar::revalidated_events(events, booked), waiting)
}

/// The identifiers of the students, in their order.
pub open spec fn student_ids(students: Seq<StudentModel>) -> Seq<u128> {
    Seq::new(students.len(), |i: int| students[i].name.uuid)
}

/// The identifiers of the rooms, in their order.
pub open spec fn room_ids(rooms: Seq<RoomModel>) -> Seq<u128> {
    Seq::new(rooms.len(), |i: int| rooms[i].uuid)
}

impl StudentModel {
    /// A student who was just added.
    pub open spec fn fresh(uuid: u128, first: Seq<char>, last: Seq<char>, title: Option<Seq<char>>) -> Self {
        StudentModel { name: NameModel { uuid, first, last, title }, calendar: Seq::empty() }
    }
}

impl TeacherModel {
    /// A teacher who was just added.
    pub open spec fn fresh(
        uuid: u128,
        first: Seq<char>,
        last: Seq<char>,
        title: Option<Seq<char>>,
        shorthand: Option<Seq<char>>,
        subjects: Seq<Seq<char>>,
    ) -> Self {
        TeacherModel {
            name: NameModel { uuid, first, last, title },
            shorthand: match shorthand {
                Some(given) => given,
                None => default_shorthand(last),
            },
            calendar: Seq::empty(),
            subjects,
        }
    }
}

impl ExamModel {
    /// An exam that was just added.
    pub open spec fn fresh(
        uuid: u128,
        id: Seq<char>,
        duration: i64,
        subjects: Seq<Seq<char>>,
        tags: Seq<TagModel>,
    ) -> Self {
        ExamModel {
            duration,
            uuid,
            id,
            pinned: false,
            examinees: Seq::empty(),
            examiners: seq![None, None, None],
            subjects,
            tags,
            pairing: None,
            error: None,
        }
    }

    /// The exam with every reference in it revalidated: the examinees
    /// against the identifiers `students`, the examiners against `teachers`
    /// and the room of the pairing against `rooms`.
    pub open spec fn revalidated(self, students: Seq<u128>, teachers: Seq<u128>, rooms: Seq<u128>) -> Self {
        ExamModel {
            examinees: revalidated_refs(self.examinees, students),
            examiners: revalidated_slots(self.examiners, teachers),
            pairing: revalidated_pairing(self.pairing, rooms),
            ..self
        }
    }
}

impl RoomModel {
    /// A room that was just added.
    pub open spec fn fresh(uuid: u128, number: Seq<char>, tags: Seq<Seq<char>>) -> Self {
        RoomModel { uuid, calendar: Seq::empty(), number, tags }
    }
}

impl PlanModel {
    /// The plan after every reference in it was revalidated: the
    /// participants of every exam against the students and the teachers,
    /// the room of every pairing against the rooms, the bookings of every
    /// calendar against the booked exams and, where the exam of a booking
    /// is not among them, against the waiting exams.
    pub open spec fn revalidated(self) -> PlanModel {
        let students = student_ids(self.students);
        let teachers = crate::solver::teacher_ids(self.teachers);
        let rooms = room_ids(self.rooms);
        let exams = crate::solver::exam_ids(self.finished_exams);
        let waiting = crate::solver::exam_ids(self.unfinished_exams);
        PlanModel {
            students: Seq::new(
                self.students.len(),
                |i: int|
                    StudentModel {
                        calendar: revalidated_bookings(self.students[i].calendar, exams, waiting),
                        ..self.students[i]
                    },
            ),
            teachers: Seq::new(
                self.teachers.len(),
                |i: int|
                    TeacherModel {
                        calendar: revalidated_bookings(self.teachers[i].calendar, exams, waiting),
                        ..self.teachers[i]
                    },
            ),
            unfinished_exams: Seq::new(
                self.unfinished_exams.len(),
                |i: int| self.unfinished_exams[i].revalidated(students, teachers, rooms),
            ),
            finished_exams: Seq::new(
                self.finished_exams.len(),
                |i: int| self.finished_exams[i].revalidated(students, teachers, rooms),
            ),
            rooms: Seq::new(
                self.rooms.len(),
                |i: int|
                    RoomModel {
                        calendar: revalidated_bookings(self.rooms[i].calendar, exams, waiting),
                        ..self.rooms[i]
                    },
            ),
            ..self
        }
    }

    /// The plan after the exam with the identifier `uuid` moved from the
    /// waiting exams to the end of the booked ones; unchanged if no waiting
    /// exam has that identifier.
    pub open spec fn finished(self, uuid: u128) -> PlanModel {
        match uuid_ref::first_index(crate::solver::exam_ids(self.unfinished_exams), uuid) {
            Some(i) => PlanModel {
                unfinished_exams: self.unfinished_exams.remove(i),
                finished_exams: self.finished_exams.push(self.unfinished_exams[i]),
                ..self
            },
            None => self,
        }
    }

    /// The plan after the exam with the identifier `uuid` moved from the
    /// booked exams to the end of the waiting ones; unchanged if no booked
    /// exam has that identifier.
    pub open spec fn unfinished(self, uuid: u128) -> PlanModel {
        match uuid_ref::first_index(crate::solver::exam_ids(self.finished_exams), uuid) {
            Some(i) => PlanModel {
                finished_exams: self.finished_exams.remove(i),
                unfinished_exams: self.unfinished_exams.push(self.finished_exams[i]),
                ..self
            },
            None => self,
        }
    }
}

/// The identifiers of a list of students are those of their models.
pub proof fn lemma_student_ids(students: Seq<Student>)
    ensures
        uuids(students) == student_ids(models(students)),
{
    assert(uuids(students) =~= student_ids(models(students)));
}

/// The identifiers of a list of rooms are those of their models.
pub proof fn lemma_room_ids(rooms: Seq<Room>)
    ensures
        uuids(rooms) == room_ids(models(rooms)),
{
    assert(uuids(rooms) =~= room_ids(models(rooms)));
}

impl Default for PlanerData {
    fn default() -> (plan: Self)
        ensures
            plan@ == (PlanModel {
                students: Seq::empty(),
                teachers: Seq::empty(),
                unfinished_exams: Seq::empty(),
                finished_exams: Seq::empty(),
                rooms: Seq::empty(),
                timetable: default_times(),
                hard: seq![
                    HardConstraint::RoomFree,
                    HardConstraint::RequiredTags,
                    HardConstraint::ExaminersFree,
                ],
                soft: seq![SoftConstraint::MatchingTags],
                current_file_name: None,
                needs_recompute: false,
            }),
    {
        let plan = Self {
            students: Vec::new(),
            teachers: Vec::new(),
            unfinished_exams: Vec::new(),
            finished_exams: Vec::new(),
            rooms: Vec::new(),
            timetable: Timetable::default(),
            constraints: Constraints::default(),
            current_file_name: None,
            needs_recompute: false,
        };
        assert(plan@.students =~= Seq::empty());
        assert(plan@.teachers =~= Seq::empty());
        assert(plan@.unfinished_exams =~= Seq::empty());
        assert(plan@.finished_exams =~= Seq::empty());
        assert(plan@.rooms =~= Seq::empty());
        plan
    }
}

impl PlanerData {
    /// Adds a student with the identifier `uuid`.
    pub fn add_student_with_uuid(
        &mut self,
        uuid: u128,
        first: String,
        last: String,
        title: Option<String>,
    )
        ensures
            final(self)@ == (PlanModel {
                students: old(self)@.students.push(
                    StudentModel::fresh(uuid, first@, last@, optional_text(title)),
                ),
                ..old(self)@
            }),
    {
        self.students.push(Student::new(Name::new(uuid, first, last, title)));
        assert(models(self.students@) =~= models(old(self).students@).push(
            StudentModel::fresh(uuid, first@, last@, optional_text(title)),
        ));
    }

    /// Adds a student under a fresh random identifier.
    pub fn add_student(&mut self, first: String, last: String, title: Option<String>)
        ensures
            final(self)@.students.len() == old(self)@.students.len() + 1,
            is_random_uuid(final(self)@.students.last().name.uuid),
            final(self)@ == (PlanModel {
                students: old(self)@.students.push(
                    StudentModel::fresh(
                        final(self)@.students.last().name.uuid,
                        first@,
                        last@,
                        optional_text(title),
                    ),
                ),
                ..old(self)@
            }),
    {
        let uuid = fresh_uuid();
        self.add_student_with_uuid(uuid, first, last, title);
    }

    /// Adds a teacher with the identifier `uuid`. A teacher who is given no
    /// shorthand gets the start of the last name.
    pub fn add_teacher_with_uuid(
        &mut self,
        uuid: u128,
        first: String,
        last: String,
        title: Option<String>,
        shorthand: Option<String>,
        subjects: &[String],
    )
        ensures
            final(self)@ == (PlanModel {
                teachers: old(self)@.teachers.push(
                    TeacherModel::fresh(
                        uuid,
                        first@,
                        last@,
                        optional_text(title),
                        optional_text(shorthand),
                        strings(subjects@),
                    ),
                ),
                ..old(self)@
            }),
    {
        let shorthand = match shorthand {
            Some(given) => given,
            None => shorthand_of(last.as_str()),
        };
        let mut list: Vec<String> = Vec::new();
        let mut i: usize = 0;
        while i < subjects.len()
            invariant
                i <= subjects@.len(),
                list@.len() == i,
                forall|j: int| 0 <= j < i ==> list@[j]@ == subjects@[j]@,
            decreases subjects@.len() - i,
        {
            list.push(subjects[i].clone());
            i += 1;
        }
        assert(strings(list@) =~= strings(subjects@));
        self.teachers.push(Teacher::new(Name::new(uuid, first, last, title), shorthand, list));
        assert(models(self.teachers@) =~= models(old(self).teachers@).push(self.teachers@.last()@));
    }

    /// Adds a teacher under a fresh random identifier.
    pub fn add_teacher(
        &mut self,
        first: String,
        last: String,
        title: Option<String>,
        shorthand: Option<String>,
        subjects: &[String],
    )
        ensures
            final(self)@.teachers.len() == old(self)@.teachers.len() + 1,
            is_random_uuid(final(self)@.teachers.last().name.uuid),
            final(self)@ == (PlanModel {
                teachers: old(self)@.teachers.push(
                    TeacherModel::fresh(
                        final(self)@.teachers.last().name.uuid,
                        first@,
                        last@,
                        optional_text(title),
                        optional_text(shorthand),
                        strings(subjects@),
                    ),
                ),
                ..old(self)@
            }),
    {
        let uuid = fresh_uuid();
        self.add_teacher_with_uuid(uuid, first, last, title, shorthand, subjects);
    }

    /// Adds a waiting exam with the identifier `uuid`: no participants, not
    /// pinned, not booked.
    pub fn add_exam_with_uuid(
        &mut self,
        uuid: u128,
        id: String,
        duration: i64,
        subjects: Vec<String>,
        tags: Vec<Tag>,
    )
        ensures
            final(self)@ == (PlanModel {
                unfinished_exams: old(self)@.unfinished_exams.push(
                    ExamModel::fresh(
                        uuid,
                        id@,
                        duration,
                        strings(subjects@),
                        models(tags@),
                    ),
                ),
                ..old(self)@
            }),
    {
        self.unfinished_exams.push(Exam::new(uuid, id, duration, subjects, tags));
        assert(models(self.unfinished_exams@) =~= models(old(self).unfinished_exams@).push(
            self.unfinished_exams@.last()@,
        ));
    }

    /// Adds a waiting exam under a fresh random identifier.
    pub fn add_exam(&mut self, id: String, duration: i64, subjects: Vec<String>, tags: Vec<Tag>)
        ensures
            final(self)@.unfinished_exams.len() == old(self)@.unfinished_exams.len() + 1,
            is_random_uuid(final(self)@.unfinished_exams.last().uuid),
            final(self)@ == (PlanModel {
                unfinished_exams: old(self)@.unfinished_exams.push(
                    ExamModel::fresh(
                        final(self)@.unfinished_exams.last().uuid,
                        id@,
                        duration,
                        strings(subjects@),
                        models(tags@),
                    ),
                ),
                ..old(self)@
            }),
    {
        let uuid = fresh_uuid();
        self.add_exam_with_uuid(uuid, id, duration, subjects, tags);
    }

    /// Adds a room with the identifier `uuid` and an empty calendar.
    pub fn add_room_with_uuid(&mut self, uuid: u128, number: String, tags: Vec<String>)
        ensures
            final(self)@ == (PlanModel {
                rooms: old(self)@.rooms.push(
                    RoomModel::fresh(uuid, number@, strings(tags@)),
                ),
                ..old(self)@
            }),
    {
        self.rooms.push(Room::new(uuid, number, tags));
        assert(models(self.rooms@) =~= models(old(self).rooms@).push(self.rooms@.last()@));
    }

    /// Adds a room under a fresh random identifier.
    pub fn add_room(&mut self, number: String, tags: Vec<String>)
        ensures
            final(self)@.rooms.len() == old(self)@.rooms.len() + 1,
            is_random_uuid(final(self)@.rooms.last().uuid),
            final(self)@ == (PlanModel {
                rooms: old(self)@.rooms.push(
                    RoomModel::fresh(
                        final(self)@.rooms.last().uuid,
                        number@,
                        strings(tags@),
                    ),
                ),
                ..old(self)@
            }),
    {
        let uuid = fresh_uuid();
        self.add_room_with_uuid(uuid, number, tags);
    }

    /// Moves the exam that `exam` names from the waiting exams to the end
    /// of the booked ones. Only the identifier of the reference counts.
    pub fn finish_exam(&mut self, exam: UuidRef<Exam>)
        ensures
            final(self)@ == old(self)@.finished(exam.uuid),
    {
        proof {
            crate::solver::lemma_exam_ids(self.unfinished_exams@);
        }
        let ghost found = uuid_ref::first_index(
            crate::solver::exam_ids(self@.unfinished_exams),
            exam.uuid,
        );
        match uuid_ref::find_uuid(self.unfinished_exams.as_slice(), exam.uuid()) {
            Some(i) => {
                let moved = self.unfinished_exams.remove(i);
                self.finished_exams.push(moved);
                assert(models(self.unfinished_exams@) =~= models(old(self).unfinished_exams@).remove(
                    i as int,
                ));
                assert(models(self.finished_exams@) =~= models(old(self).finished_exams@).push(
                    moved@,
                ));
                assert(moved@ == old(self)@.unfinished_exams[i as int]);
                assert(found == Some(i as int));
            },
            None => {
                assert(found is None);
            },
        }
    }

    /// Moves the exam that `exam` names from the booked exams to the end of
    /// the waiting ones. Only the identifier of the reference counts.
    pub fn unfinish_exam(&mut self, exam: UuidRef<Exam>)
        ensures
            final(self)@ == old(self)@.unfinished(exam.uuid),
    {
        proof {
            crate::solver::lemma_exam_ids(self.finished_exams@);
        }
        let ghost found = uuid_ref::first_index(
            crate::solver::exam_ids(self@.finished_exams),
            exam.uuid,
        );
        match uuid_ref::find_uuid(self.finished_exams.as_slice(), exam.uuid()) {
            Some(i) => {
                let moved = self.finished_exams.remove(i);
                self.unfinished_exams.push(moved);
                assert(models(self.finished_exams@) =~= models(old(self).finished_exams@).remove(
                    i as int,
                ));
                assert(models(self.unfinished_exams@) =~= models(
                    old(self).unfinished_exams@,
                ).push(moved@));
                assert(moved@ == old(self)@.finished_exams[i as int]);
                assert(found == Some(i as int));
            },
            None => {
                assert(found is None);
            },
        }
    }

    /// Notes that the bookings were changed.
    pub fn schedule_recompute(&mut self)
        ensures
            final(self)@ == (PlanModel { needs_recompute: true, ..old(self)@ }),
    {
        self.needs_recompute = true;
    }
}

fn revalidate_exams(
    exams: &mut Vec<Exam>,
    students: &[Student],
    teachers: &[Teacher],
    rooms: &[Room],
)
    ensures
        models(final(exams)@) == Seq::new(
            old(exams)@.len(),
            |i: int|
                models(old(exams)@)[i].revalidated(
                    student_ids(models(students@)),
                    crate::solver::teacher_ids(models(teachers@)),
                    room_ids(models(rooms@)),
                ),
        ),
{
    let ghost first = models(exams@);
    let ghost pupils = student_ids(models(students@));
    let ghost staff = crate::solver::teacher_ids(models(teachers@));
    let ghost places = room_ids(models(rooms@));
    let mut i: usize = 0;
    proof {
        lemma_student_ids(students@);
        crate::solver::lemma_teacher_ids(teachers@);
        lemma_room_ids(rooms@);
    }
    while i < exams.len()
        invariant
            i <= exams@.len(),
            first == models(old(exams)@),
            exams@.len() == first.len(),
            pupils == uuids(students@),
            staff == uuids(teachers@),
            places == uuids(rooms@),
            forall|j: int|
                0 <= j < i ==> (#[trigger] exams@[j])@ == first[j].revalidated(pupils, staff, places),
            forall|j: int| i <= j < first.len() ==> (#[trigger] exams@[j])@ == first[j],
        decreases exams@.len() - i,
    {
        exams[i].revalidate(students, teachers, rooms);
        i += 1;
    }
    assert(models(exams@) =~= Seq::new(
        first.len(),
        |i: int| first[i].revalidated(pupils, staff, places),
    ));
}

impl PlanerData {
    /// Attaches every reference of the plan anew, as is due after a plan
    /// was loaded: the participants of every exam to the students and the
    /// teachers, the room of every pairing to the rooms, the bookings of
    /// every calendar to the booked exams or, where the exam of a booking
    /// still waits, to the waiting exams. A reference whose target is not
    /// there is left detached; none is dropped.
    pub fn revalidate(&mut self)
        ensures
            final(self)@ == old(self)@.revalidated(),
            final(self)@.settled(),
    {
        let ghost first = self@;
        let ghost ids = crate::solver::exam_ids(first.finished_exams);
        let ghost waiting = crate::solver::exam_ids(first.unfinished_exams);
        revalidate_exams(
            &mut self.unfinished_exams,
            self.students.as_slice(),
            self.teachers.as_slice(),
            self.rooms.as_slice(),
        );
        revalidate_exams(
            &mut self.finished_exams,
            self.students.as_slice(),
            self.teachers.as_slice(),
            self.rooms.as_slice(),
        );
        proof {
            crate::solver::lemma_exam_ids(self.finished_exams@);
            crate::solver::lemma_exam_ids(self.unfinished_exams@);
            assert(uuids(self.finished_exams@) =~= ids);
            assert(uuids(self.unfinished_exams@) =~= waiting);
        }
        let mut i: usize = 0;
        while i < self.students.len()
            invariant
                i <= self.students@.len(),
                self.students@.len() == first.students.len(),
                uuids(self.finished_exams@) == ids,
                uuids(self.unfinished_exams@) == waiting,
                forall|j: int|
                    0 <= j < i ==> (#[trigger] self.students@[j])@ == first.revalidated().students[j],
                forall|j: int|
                    i <= j < first.students.len() ==> (#[trigger] self.students@[j])@
                        == first.students[j],
                ids == crate::solver::exam_ids(first.finished_exams),
                waiting == crate::solver::exam_ids(first.unfinished_exams),
                self@.unfinished_exams == first.revalidated().unfinished_exams,
                self@.finished_exams == first.revalidated().finished_exams,
                self@.teachers == first.teachers,
                self@.rooms == first.rooms,
                self@.timetable == first.timetable,
                self@.hard == first.hard,
                self@.soft == first.soft,
                self@.current_file_name == first.current_file_name,
                self@.needs_recompute == first.needs_recompute,
            decreases self.students@.len() - i,
        {
            self.students[i].revalidate(self.finished_exams.as_slice());
            self.students[i].calendar.revalidate_detached(self.unfinished_exams.as_slice());
            i += 1;
        }
        assert(self@.students =~= first.revalidated().students);
        let mut i: usize = 0;
        while i < self.teachers.len()
            invariant
                i <= self.teachers@.len(),
                self.teachers@.len() == first.teachers.len(),
                uuids(self.finished_exams@) == ids,
                uuids(self.unfinished_exams@) == waiting,
                forall|j: int|
                    0 <= j < i ==> (#[trigger] self.teachers@[j])@ == first.revalidated().teachers[j],
                forall|j: int|
                    i <= j < first.teachers.len() ==> (#[trigger] self.teachers@[j])@
                        == first.teachers[j],
                ids == crate::solver::exam_ids(first.finished_exams),
                waiting == crate::solver::exam_ids(first.unfinished_exams),
                self@.unfinished_exams == first.revalidated().unfinished_exams,
                self@.finished_exams == first.revalidated().finished_exams,
                self@.students == first.revalidated().students,
                self@.rooms == first.rooms,
                self@.timetable == first.timetable,
                self@.hard == first.hard,
                self@.soft == first.soft,
                self@.current_file_name == first.current_file_name,
                self@.needs_recompute == first.needs_recompute,
            decreases self.teachers@.len() - i,
        {
            self.teachers[i].revalidate(self.finished_exams.as_slice());
            self.teachers[i].calendar.revalidate_detached(self.unfinished_exams.as_slice());
            i += 1;
        }
        assert(self@.teachers =~= first.revalidated().teachers);
        let mut i: usize = 0;
        while i < self.rooms.len()
            invariant
                i <= self.rooms@.len(),
                self.rooms@.len() == first.rooms.len(),
                uuids(self.finished_exams@) == ids,
                uuids(self.unfinished_exams@) == waiting,
                forall|j: int|
                    0 <= j < i ==> (#[trigger] self.rooms@[j])@ == first.revalidated().rooms[j],
                forall|j: int|
                    i <= j < first.rooms.len() ==> (#[trigger] self.rooms@[j])@ == first.rooms[j],
                ids == crate::solver::exam_ids(first.finished_exams),
                waiting == crate::solver::exam_ids(first.unfinished_exams),
                self@.unfinished_exams == first.revalidated().unfinished_exams,
                self@.finished_exams == first.revalidated().finished_exams,
                self@.students == first.revalidated().students,
                self@.teachers == first.revalidated().teachers,
                self@.timetable == first.timetable,
                self@.hard == first.hard,
                self@.soft == first.soft,
                self@.current_file_name == first.current_file_name,
                self@.needs_recompute == first.needs_recompute,
            decreases self.rooms@.len() - i,
        {
            self.rooms[i].revalidate(self.finished_exams.as_slice());
            self.rooms[i].calendar.revalidate_detached(self.unfinished_exams.as_slice());
            i += 1;
        }
        assert(self@.rooms =~= first.revalidated().rooms);
        proof {
            lemma_revalidated_plan_is_settled(first);
        }
    }
}

/// Whether every reference of the exam is settled: each examinee among
/// the identifiers `students`, each examiner among `teachers`, the room of
/// the pairing among `rooms`.
pub open spec fn exam_settled(
    exam: ExamModel,
    students: Seq<u128>,
    teachers: Seq<u128>,
    rooms: Seq<u128>,
) -> bool {
    &&& forall|k: int|
        0 <= k < exam.examinees.len() ==> uuid_ref::settled(
            (#[trigger] exam.examinees[k]).item,
            exam.examinees[k].uuid,
            students,
        )
    &&& forall|k: int|
        0 <= k < exam.examiners.len() ==> match #[trigger] exam.examiners[k] {
            Some(r) => uuid_ref::settled(r.item, r.uuid, teachers),
            None => true,
        }
    &&& match exam.pairing {
        Some((room, start)) => uuid_ref::settled(room.item, room.uuid, rooms),
        None => true,
    }
}

/// Whether the payload of every booking is settled among the booked exams
/// with the identifiers `booked` and the waiting ones with the identifiers
/// `waiting`.
pub open spec fn calendar_settled(events: Seq<Booking>, booked: Seq<u128>, waiting: Seq<u128>) -> bool {
    forall|k: int|
        0 <= k < events.len() ==> uuid_ref::settled_among(
            (#[trigger] events[k]).data.item,
            events[k].data.uuid,
            booked,
            waiting,
        )
}

impl PlanModel {
    /// Whether every reference of the plan is settled: it resolves to an
    /// entity with its identifier if the plan holds one in the collection
    /// that the reference points into, and to nothing if it holds none.
    /// Participants point into the students and the teachers, pairings into
    /// the rooms, bookings into the booked exams or, failing that, into the
    /// waiting ones.
    pub open spec fn settled(self) -> bool {
        let students = student_ids(self.students);
        let teachers = crate::solver::teacher_ids(self.teachers);
        let rooms = room_ids(self.rooms);
        let exams = crate::solver::exam_ids(self.finished_exams);
        let waiting = crate::solver::exam_ids(self.unfinished_exams);
        &&& forall|i: int|
            0 <= i < self.unfinished_exams.len() ==> exam_settled(
                #[trigger] self.unfinished_exams[i],
                students,
                teachers,
                rooms,
            )
        &&& forall|i: int|
            0 <= i < self.finished_exams.len() ==> exam_settled(
                #[trigger] self.finished_exams[i],
                students,
                teachers,
                rooms,
            )
        &&& forall|i: int|
            0 <= i < self.students.len() ==> calendar_settled(
                (#[trigger] self.students[i]).calendar,
                exams,
                waiting,
            )
        &&& forall|i: int|
            0 <= i < self.teachers.len() ==> calendar_settled(
                (#[trigger] self.teachers[i]).calendar,
                exams,
                waiting,
            )
        &&& forall|i: int|
            0 <= i < self.rooms.len() ==> calendar_settled(
                (#[trigger] self.rooms[i]).calendar,
                exams,
                waiting,
            )
    }
}

/// An exam whose references were revalidated is settled.
pub proof fn lemma_revalidated_exam_is_settled(
    exam: ExamModel,
    students: Seq<u128>,
    teachers: Seq<u128>,
    rooms: Seq<u128>,
)
    ensures
        exam_settled(exam.revalidated(students, teachers, rooms), students, teachers, rooms),
{
    let after = exam.revalidated(students, teachers, rooms);
    assert forall|k: int| 0 <= k < after.examinees.len() implies uuid_ref::settled(
        (#[trigger] after.examinees[k]).item,
        after.examinees[k].uuid,
        students,
    ) by {
        uuid_ref::lemma_revalidated_is_settled(exam.examinees[k], students);
    }
    assert forall|k: int| 0 <= k < after.examiners.len() implies match #[trigger] after.examiners[k] {
        Some(r) => uuid_ref::settled(r.item, r.uuid, teachers),
        None => true,
    } by {
        match exam.examiners[k] {
            Some(r) => {
                uuid_ref::lemma_revalidated_is_settled(r, teachers);
            },
            None => {},
        }
    }
    match exam.pairing {
        Some((room, start)) => {
            uuid_ref::lemma_revalidated_is_settled(room, rooms);
        },
        None => {},
    }
}

/// A calendar whose bookings were revalidated is settled.
pub proof fn lemma_revalidated_calendar_is_settled(
    events: Seq<Booking>,
    booked: Seq<u128>,
    waiting: Seq<u128>,
)
    ensures
        calendar_settled(revalidated_bookings(events, booked, waiting), booked, waiting),
{
    let after = revalidated_bookings(events, booked, waiting);
    assert forall|k: int| 0 <= k < after.len() implies uuid_ref::settled_among(
        (#[trigger] after[k]).data.item,
        after[k].data.uuid,
        booked,
        waiting,
    ) by {
        let attached = events[k].data.revalidated(booked);
        uuid_ref::lemma_revalidated_is_settled(events[k].data, booked);
        uuid_ref::lemma_revalidated_is_settled(attached, waiting);
        uuid_ref::lemma_resolve(attached.item, attached.uuid, booked);
        uuid_ref::lemma_resolve(after[k].data.item, after[k].data.uuid, booked);
    }
}

/// After a plan was revalidated, every reference in it is settled: the
/// examinees, the examiners, the room of every pairing and the payload of
/// every booking resolve wherever the plan still holds their identifier,
/// and resolve to nothing wherever it does not.
pub proof fn lemma_revalidated_plan_is_settled(plan: PlanModel)
    ensures
        plan.revalidated().settled(),
{
    let after = plan.revalidated();
    let students = student_ids(plan.students);
    let teachers = crate::solver::teacher_ids(plan.teachers);
    let rooms = room_ids(plan.rooms);
    let exams = crate::solver::exam_ids(plan.finished_exams);
    let waiting = crate::solver::exam_ids(plan.unfinished_exams);
    assert(crate::solver::exam_ids(after.unfinished_exams) =~= waiting);
    assert(student_ids(after.students) =~= students);
    assert(crate::solver::teacher_ids(after.teachers) =~= teachers);
    assert(room_ids(after.rooms) =~= rooms);
    assert(crate::solver::exam_ids(after.finished_exams) =~= exams);
    assert forall|i: int| 0 <= i < after.unfinished_exams.len() implies exam_settled(
        #[trigger] after.unfinished_exams[i],
        students,
        teachers,
        rooms,
    ) by {
        lemma_revalidated_exam_is_settled(plan.unfinished_exams[i], students, teachers, rooms);
    }
    assert forall|i: int| 0 <= i < after.finished_exams.len() implies exam_settled(
        #[trigger] after.finished_exams[i],
        students,
        teachers,
        rooms,
    ) by {
        lemma_revalidated_exam_is_settled(plan.finished_exams[i], students, teachers, rooms);
    }
    assert forall|i: int| 0 <= i < after.students.len() implies calendar_settled(
        (#[trigger] after.students[i]).calendar,
        exams,
        waiting,
    ) by {
        lemma_revalidated_calendar_is_settled(plan.students[i].calendar, exams, waiting);
    }
    assert forall|i: int| 0 <= i < after.teachers.len() implies calendar_settled(
        (#[trigger] after.teachers[i]).calendar,
        exams,
        waiting,
    ) by {
        lemma_revalidated_calendar_is_settled(plan.teachers[i].calendar, exams, waiting);
    }
    assert forall|i: int| 0 <= i < after.rooms.len() implies calendar_settled(
        (#[trigger] after.rooms[i]).calendar,
        exams,
        waiting,
    ) by {
        lemma_revalidated_calendar_is_settled(plan.rooms[i].calendar, exams, waiting);
    }
}

} // verus!
