//! The rules that a booking has to meet, and the scheduler that books the
//! pending exams by them.
//!
//! A candidate is an exam, a room and a start. Hard rules veto a candidate,
//! each with a message; soft rules rank the candidates that are left. The
//! rules are data: a plan carries the list of rules that it is checked by.

use crate::planer::calendar::{booked_within, lemma_filter_push};
use crate::planer::uuid_ref::{UuidRef, resolve, uuids};
use crate::planer::booking::ExamPlace;
use crate::planer::{
    Booking, Exam, ExamModel, PlanModel, PlanerData, Room, RoomModel, TagModel, Teacher,
    TeacherModel, TimetableLesson, models,
};
use crate::text::{join, joined, strings, utc_text, utc_text_of};
use vstd::prelude::*;

verus! {

/// A rule that a candidate must meet.
#[derive(Clone, Copy, Debug, PartialEq, Eq, Structural)]
pub enum HardConstraint {
    /// The room has no booking that overlaps the exam. Not asked of a
    /// booking that is already made: it would overlap itself.
    RoomFree,
    /// The room offers every tag that the exam requires.
    RequiredTags,
    /// No examiner of the exam has an overlapping booking for another exam.
    ExaminersFree,
}

/// A rule that ranks candidates: the higher the score, the better.
#[derive(Clone, Copy, Debug, PartialEq, Eq, Structural)]
pub enum SoftConstraint {
    /// Two points for each required tag of the exam that the room offers,
    /// one for each other tag of the exam that it offers.
    MatchingTags,
}

/// The rules of a plan, in the order in which they are asked.
#[derive(Debug)]
pub struct Constraints {
    pub hard: Vec<HardConstraint>,
    pub soft: Vec<SoftConstraint>,
}

impl Default for Constraints {
    fn default() -> (rules: Self)
        ensures
            rules.hard@ == seq![
                HardConstraint::RoomFree,
                HardConstraint::RequiredTags,
                HardConstraint::ExaminersFree,
            ],
            rules.soft@ == seq![SoftConstraint::MatchingTags],
    {
        let mut hard: Vec<HardConstraint> = Vec::new();
        hard.push(HardConstraint::RoomFree);
        hard.push(HardConstraint::RequiredTags);
        hard.push(HardConstraint::ExaminersFree);
        let mut soft: Vec<SoftConstraint> = Vec::new();
        soft.push(SoftConstraint::MatchingTags);
        assert(hard@ =~= seq![
            HardConstraint::RoomFree,
            HardConstraint::RequiredTags,
            HardConstraint::ExaminersFree,
        ]);
        assert(soft@ =~= seq![SoftConstraint::MatchingTags]);
        Constraints { hard, soft }
    }
}

/// The identifiers of the teachers, in their order.
pub open spec fn teacher_ids(teachers: Seq<TeacherModel>) -> Seq<u128> {
    Seq::new(teachers.len(), |i: int| teachers[i].name.uuid)
}

/// The identifiers of the exams, in their order.
pub open spec fn exam_ids(exams: Seq<ExamModel>) -> Seq<u128> {
    Seq::new(exams.len(), |i: int| exams[i].uuid)
}

/// The names that the exams are called by, in their order.
pub open spec fn exam_names(exams: Seq<ExamModel>) -> Seq<Seq<char>> {
    Seq::new(exams.len(), |i: int| exams[i].id)
}

/// What the rule `RoomFree` says of a room that is taken.
pub open spec fn room_booked_text(number: Seq<char>, when: Seq<char>) -> Seq<char> {
    "the room "@ + number + " is already booked at "@ + when
}

/// The verdict of `RoomFree`: `None` if the candidate passes, else the
/// message.
pub open spec fn room_free_verdict(
    exam: ExamModel,
    room: RoomModel,
    start: i64,
    is_check: bool,
) -> Option<Seq<char>> {
    if !is_check && booked_within(room.calendar, start as int, exam.duration as int) {
        Some(room_booked_text(room.number, utc_text_of(start)))
    } else {
        None
    }
}

/// The tags of `tags` that are required and that `offered` lacks, in their
/// order.
pub open spec fn missing_tags(tags: Seq<TagModel>, offered: Seq<Seq<char>>) -> Seq<TagModel> {
    tags.filter(|tag: TagModel| tag.required && !offered.contains(tag.name))
}

/// One line for each tag: a line break, a dash and the name.
pub open spec fn tag_lines(tags: Seq<TagModel>) -> Seq<char>
    decreases tags.len(),
{
    if tags.len() == 0 {
        Seq::empty()
    } else {
        tag_lines(tags.drop_last()) + "\n - "@ + tags.last().name
    }
}

/// The verdict of `RequiredTags`.
pub open spec fn required_tags_verdict(exam: ExamModel, room: RoomModel) -> Option<Seq<char>> {
    let missing = missing_tags(exam.tags, room.tags);
    if missing.len() == 0 {
        None
    } else {
        Some("the following required tags are missing from the room:"@ + tag_lines(missing))
    }
}

/// The bookings of `calendar` that overlap the interval of length
/// `duration` from `start` and belong to another exam than `exam_uuid`.
pub open spec fn clashes(calendar: Seq<Booking>, exam_uuid: u128, start: int, duration: int) -> Seq<
    Booking,
> {
    calendar.filter(|b: Booking| b.includes_spec(start, duration) && b.data.uuid != exam_uuid)
}

/// The names of the exams that the bookings were made for, in the order of
/// the bookings. A booking whose exam cannot be found has no name and is
/// left out.
pub open spec fn booking_labels(
    bookings: Seq<Booking>,
    ids: Seq<u128>,
    names: Seq<Seq<char>>,
) -> Seq<Seq<char>>
    decreases bookings.len(),
{
    if bookings.len() == 0 {
        Seq::empty()
    } else {
        let rest = booking_labels(bookings.drop_last(), ids, names);
        let last = bookings.last();
        match resolve(last.data.item, last.data.uuid, ids) {
            Some(i) => rest.push(names[i]),
            None => rest,
        }
    }
}

/// The line that names a busy examiner and the exams that keep them busy.
pub open spec fn busy_line(teacher: TeacherModel, labels: Seq<Seq<char>>) -> Seq<char> {
    "\n"@ + teacher.name.text() + ": "@ + joined(labels, ", "@)
}

/// The line for one examiner slot, or `None` where the slot is empty, the
/// examiner cannot be found or the examiner is free.
pub open spec fn examiner_line(
    slot: Option<UuidRef<Teacher>>,
    exam_uuid: u128,
    start: int,
    duration: int,
    teachers: Seq<TeacherModel>,
    ids: Seq<u128>,
    names: Seq<Seq<char>>,
) -> Option<Seq<char>> {
    match slot {
        None => None,
        Some(r) => match resolve(r.item, r.uuid, teacher_ids(teachers)) {
            None => None,
            Some(t) => {
                let found = clashes(teachers[t].calendar, exam_uuid, start, duration);
                if found.len() == 0 {
                    None
                } else {
                    Some(busy_line(teachers[t], booking_labels(found, ids, names)))
                }
            },
        },
    }
}

/// Whether one of the first `upto` examiner slots holds a busy examiner.
pub open spec fn any_examiner_busy(
    exam: ExamModel,
    start: int,
    teachers: Seq<TeacherModel>,
    ids: Seq<u128>,
    names: Seq<Seq<char>>,
    upto: int,
) -> bool {
    exists|k: int|
        0 <= k < upto && k < exam.examiners.len() && (#[trigger] examiner_line(
            exam.examiners[k],
            exam.uuid,
            start,
            exam.duration as int,
            teachers,
            ids,
            names,
        )) is Some
}

/// The lines of the busy examiners among the first `upto` slots, in the
/// order of the slots.
pub open spec fn busy_lines(
    exam: ExamModel,
    start: int,
    teachers: Seq<TeacherModel>,
    ids: Seq<u128>,
    names: Seq<Seq<char>>,
    upto: int,
) -> Seq<char>
    decreases upto,
{
    if upto <= 0 || upto > exam.examiners.len() {
        Seq::empty()
    } else {
        let before = busy_lines(exam, start, teachers, ids, names, upto - 1);
        match examiner_line(
            exam.examiners[upto - 1],
            exam.uuid,
            start,
            exam.duration as int,
            teachers,
            ids,
            names,
        ) {
            Some(line) => before + line,
            None => before,
        }
    }
}

/// The verdict of `ExaminersFree`.
pub open spec fn examiners_free_verdict(
    exam: ExamModel,
    start: i64,
    teachers: Seq<TeacherModel>,
    ids: Seq<u128>,
    names: Seq<Seq<char>>,
) -> Option<Seq<char>> {
    let slots = exam.examiners.len() as int;
    if any_examiner_busy(exam, start as int, teachers, ids, names, slots) {
        Some(
            "the following people are already booked:"@ + busy_lines(
                exam,
                start as int,
                teachers,
                ids,
                names,
                slots,
            ),
        )
    } else {
        None
    }
}

/// The verdict of one hard rule on the candidate (`exam`, `room`, `start`).
/// `teachers` are the teachers of the plan; `ids` and `names` are the
/// identifiers and the names of its finished exams.
pub open spec fn hard_verdict(
    rule: HardConstraint,
    exam: ExamModel,
    room: RoomModel,
    start: i64,
    is_check: bool,
    teachers: Seq<TeacherModel>,
    ids: Seq<u128>,
    names: Seq<Seq<char>>,
) -> Option<Seq<char>> {
    match rule {
        HardConstraint::RoomFree => room_free_verdict(exam, room, start, is_check),
        HardConstraint::RequiredTags => required_tags_verdict(exam, room),
        HardConstraint::ExaminersFree => examiners_free_verdict(exam, start, teachers, ids, names),
    }
}

/// The message of the first rule at or after `from` that the candidate
/// fails, or `None` if it passes them all.
pub open spec fn first_failure(
    rules: Seq<HardConstraint>,
    exam: ExamModel,
    room: RoomModel,
    start: i64,
    is_check: bool,
    teachers: Seq<TeacherModel>,
    ids: Seq<u128>,
    names: Seq<Seq<char>>,
    from: int,
) -> Option<Seq<char>>
    decreases rules.len() - from,
{
    if from < 0 || from >= rules.len() {
        None
    } else {
        match hard_verdict(rules[from], exam, room, start, is_check, teachers, ids, names) {
            Some(message) => Some(message),
            None => first_failure(rules, exam, room, start, is_check, teachers, ids, names, from + 1),
        }
    }
}

/// What `apply_hard` returns: the message of the first hard rule that the
/// candidate fails.
pub open spec fn apply_hard_spec(
    rules: Seq<HardConstraint>,
    exam: ExamModel,
    room: RoomModel,
    start: i64,
    is_check: bool,
    teachers: Seq<TeacherModel>,
    exams: Seq<ExamModel>,
) -> Option<Seq<char>> {
    first_failure(
        rules,
        exam,
        room,
        start,
        is_check,
        teachers,
        exam_ids(exams),
        exam_names(exams),
        0,
    )
}

/// What one tag adds to the score of a room that offers `offered`.
pub open spec fn tag_score(tag: TagModel, offered: Seq<Seq<char>>) -> int {
    if offered.contains(tag.name) {
        if tag.required {
            2
        } else {
            1
        }
    } else {
        0
    }
}

/// The sum of the scores of the tags.
pub open spec fn tags_score(tags: Seq<TagModel>, offered: Seq<Seq<char>>) -> int
    decreases tags.len(),
{
    if tags.len() == 0 {
        0
    } else {
        tags_score(tags.drop_last(), offered) + tag_score(tags.last(), offered)
    }
}

/// The score that one soft rule gives the candidate.
pub open spec fn soft_score(rule: SoftConstraint, exam: ExamModel, room: RoomModel, start: i64) -> int {
    match rule {
        SoftConstraint::MatchingTags => tags_score(exam.tags, room.tags),
    }
}

/// The sum of the scores of the first `upto` soft rules.
pub open spec fn total_score(
    rules: Seq<SoftConstraint>,
    exam: ExamModel,
    room: RoomModel,
    start: i64,
    upto: int,
) -> int
    decreases upto,
{
    if upto <= 0 || upto > rules.len() {
        0
    } else {
        total_score(rules, exam, room, start, upto - 1) + soft_score(
            rules[upto - 1],
            exam,
            room,
            start,
        )
    }
}

/// A score as an `i32`: what does not fit counts as the largest.
pub open spec fn capped(score: int) -> int {
    if score > i32::MAX {
        i32::MAX as int
    } else {
        score
    }
}

/// What `apply_soft` returns: the sum of the scores of all soft rules,
/// capped.
pub open spec fn apply_soft_spec(
    rules: Seq<SoftConstraint>,
    exam: ExamModel,
    room: RoomModel,
    start: i64,
) -> int {
    capped(total_score(rules, exam, room, start, rules.len() as int))
}

/// The score of the tags is at least nothing and at most two for each tag.
pub proof fn lemma_tags_score_bounds(tags: Seq<TagModel>, offered: Seq<Seq<char>>)
    ensures
        0 <= tags_score(tags, offered) <= 2 * tags.len(),
    decreases tags.len(),
{
    if tags.len() > 0 {
        lemma_tags_score_bounds(tags.drop_last(), offered);
    }
}

/// The sum of the scores is not negative.
pub proof fn lemma_total_score_bounds(
    rules: Seq<SoftConstraint>,
    exam: ExamModel,
    room: RoomModel,
    start: i64,
    upto: int,
)
    ensures
        0 <= total_score(rules, exam, room, start, upto),
    decreases upto,
{
    if 0 < upto <= rules.len() {
        lemma_total_score_bounds(rules, exam, room, start, upto - 1);
        lemma_tags_score_bounds(exam.tags, room.tags);
    }
}

/// The identifiers of a list of teachers are those of their models.
pub proof fn lemma_teacher_ids(teachers: Seq<Teacher>)
    ensures
        uuids(teachers) == teacher_ids(models(teachers)),
{
    assert(uuids(teachers) =~= teacher_ids(models(teachers)));
}

/// The identifiers of a list of exams are those of their models.
pub proof fn lemma_exam_ids(exams: Seq<Exam>)
    ensures
        uuids(exams) == exam_ids(models(exams)),
{
    assert(uuids(exams) =~= exam_ids(models(exams)));
}

/// The message of the rule `RoomFree` for the room called `number`, taken
/// at the instant that reads `when`.
pub fn room_booked_message(number: &str, when: &str) -> (message: String)
    ensures
        message@ == room_booked_text(number@, when@),
{
    let mut message = String::from_str("the room ");
    message.append(number);
    message.append(" is already booked at ");
    message.append(when);
    message
}

/// The message that names the required tags that a room lacks, or `None`
/// if it lacks none.
pub fn check_required_tags(exam: &Exam, room: &Room) -> (verdict: Option<String>)
    ensures
        match required_tags_verdict(exam@, room@) {
            Some(message) => verdict is Some && verdict->0@ == message,
            None => verdict is None,
        },
{
    let ghost offered = strings(room.tags@);
    let ghost pred = |tag: TagModel| tag.required && !offered.contains(tag.name);
    let ghost tags = models(exam.tags@);
    let mut message = String::from_str("the following required tags are missing from the room:");
    let mut any = false;
    let mut i: usize = 0;
    assert(tags.take(0) =~= Seq::<TagModel>::empty());
    assert(message@ + Seq::<char>::empty() =~= message@);
    while i < exam.tags.len()
        invariant
            i <= exam.tags@.len(),
            tags == models(exam.tags@),
            offered == strings(room.tags@),
            pred == |tag: TagModel| tag.required && !offered.contains(tag.name),
            any == (tags.take(i as int).filter(pred).len() > 0),
            message@ == "the following required tags are missing from the room:"@ + tag_lines(
                tags.take(i as int).filter(pred),
            ),
        decreases exam.tags@.len() - i,
    {
        let tag = &exam.tags[i];
        let ghost before = tags.take(i as int).filter(pred);
        proof {
            assert(tags.take(i + 1) =~= tags.take(i as int).push(tag@));
            lemma_filter_push(tags.take(i as int), tag@, pred);
        }
        if tag.required && !crate::text::contains_text(&room.tags, &tag.name) {
            message.append("\n - ");
            message.append(tag.name.as_str());
            any = true;
            proof {
                let now = before.push(tag@);
                assert(now.drop_last() =~= before);
                assert(message@ =~= "the following required tags are missing from the room:"@
                    + tag_lines(now));
            }
        }
        i += 1;
    }
    assert(tags.take(i as int) =~= tags);
    if any {
        Some(message)
    } else {
        None
    }
}

/// The message of `RoomFree` if the room is taken during the exam, else
/// `None`. A booking that is already made passes unasked.
pub fn check_room_free(exam: &Exam, room: &Room, start: &i64, is_check: bool) -> (verdict: Option<
    String,
>)
    ensures
        match room_free_verdict(exam@, room@, *start, is_check) {
            Some(message) => verdict is Some && verdict->0@ == message,
            None => verdict is None,
        },
{
    if is_check {
        None
    } else if room.calendar.is_booked_from_to(start, exam.duration) {
        let when = utc_text(*start);
        Some(room_booked_message(room.number.as_str(), when.as_str()))
    } else {
        None
    }
}

/// Whether `calendar` holds a booking for another exam than `exam_uuid`
/// that overlaps the interval of length `duration` from `start`, and the
/// names of the exams of those bookings that can be found among `exams`.
pub fn clashing_bookings(
    calendar: &[Booking],
    exam_uuid: u128,
    start: &i64,
    duration: i64,
    exams: &[Exam],
) -> (found: (bool, Vec<String>))
    ensures
        found.0 == (clashes(calendar@, exam_uuid, *start as int, duration as int).len() > 0),
        strings(found.1@) == booking_labels(
            clashes(calendar@, exam_uuid, *start as int, duration as int),
            exam_ids(models(exams@)),
            exam_names(models(exams@)),
        ),
{
    let ghost pred = |b: Booking|
        b.includes_spec(*start as int, duration as int) && b.data.uuid != exam_uuid;
    let ghost ids = exam_ids(models(exams@));
    let ghost names = exam_names(models(exams@));
    let mut busy = false;
    let mut labels: Vec<String> = Vec::new();
    let mut i: usize = 0;
    proof {
        lemma_exam_ids(exams@);
        assert(calendar@.take(0) =~= Seq::<Booking>::empty());
        assert(strings(labels@) =~= Seq::<Seq<char>>::empty());
    }
    while i < calendar.len()
        invariant
            i <= calendar@.len(),
            pred == |b: Booking|
                b.includes_spec(*start as int, duration as int) && b.data.uuid != exam_uuid,
            ids == exam_ids(models(exams@)),
            ids == uuids(exams@),
            names == exam_names(models(exams@)),
            busy == (calendar@.take(i as int).filter(pred).len() > 0),
            strings(labels@) == booking_labels(calendar@.take(i as int).filter(pred), ids, names),
        decreases calendar@.len() - i,
    {
        let booking = &calendar[i];
        let ghost before = calendar@.take(i as int).filter(pred);
        let ghost had = strings(labels@);
        proof {
            assert(calendar@.take(i + 1) =~= calendar@.take(i as int).push(*booking));
            lemma_filter_push(calendar@.take(i as int), *booking, pred);
        }
        if booking.includes(start, duration) && booking.data.uuid() != exam_uuid {
            busy = true;
            proof {
                assert(before.push(*booking).drop_last() =~= before);
            }
            match booking.data.position(exams) {
                Some(place) => {
                    labels.push(exams[place].id.clone());
                    assert(strings(labels@) =~= had.push(names[place as int]));
                },
                None => {},
            }
        }
        i += 1;
    }
    assert(calendar@.take(i as int) =~= calendar@);
    (busy, labels)
}

/// The message that names the busy examiners of the exam, or `None` if
/// every examiner that can be found is free.
pub fn check_examiners_free(exam: &Exam, start: &i64, teachers: &[Teacher], exams: &[Exam]) -> (verdict:
    Option<String>)
    ensures
        match examiners_free_verdict(
            exam@,
            *start,
            models(teachers@),
            exam_ids(models(exams@)),
            exam_names(models(exams@)),
        ) {
            Some(message) => verdict is Some && verdict->0@ == message,
            None => verdict is None,
        },
{
    let ghost people = models(teachers@);
    let ghost ids = exam_ids(models(exams@));
    let ghost names = exam_names(models(exams@));
    let mut message = String::from_str("the following people are already booked:");
    let mut any = false;
    let mut k: usize = 0;
    proof {
        lemma_teacher_ids(teachers@);
        assert(message@ + Seq::<char>::empty() =~= message@);
    }
    while k < 3
        invariant
            k <= 3,
            exam@.examiners.len() == 3,
            people == models(teachers@),
            uuids(teachers@) == teacher_ids(people),
            ids == exam_ids(models(exams@)),
            names == exam_names(models(exams@)),
            any == any_examiner_busy(exam@, *start as int, people, ids, names, k as int),
            message@ == "the following people are already booked:"@ + busy_lines(
                exam@,
                *start as int,
                people,
                ids,
                names,
                k as int,
            ),
        decreases 3 - k,
    {
        let ghost line = examiner_line(
            exam@.examiners[k as int],
            exam.uuid,
            *start as int,
            exam.duration as int,
            people,
            ids,
            names,
        );
        let ghost head = message@;
        let mut busy_here = false;
        match &exam.examiners[k] {
            Some(examiner) => {
                match examiner.position(teachers) {
                    Some(place) => {
                        let teacher = &teachers[place];
                        let found = clashing_bookings(
                            teacher.calendar.events(),
                            exam.uuid,
                            start,
                            exam.duration,
                            exams,
                        );
                        if found.0 {
                            let name = teacher.name.to_text();
                            let list = join(&found.1, ", ");
                            message.append("\n");
                            message.append(name.as_str());
                            message.append(": ");
                            message.append(list.as_str());
                            busy_here = true;
                            assert(message@ =~= head + line->0);
                        }
                    },
                    None => {},
                }
            },
            None => {},
        }
        assert(busy_here == (line is Some));
        if busy_here {
            any = true;
        }
        k += 1;
    }
    if any {
        Some(message)
    } else {
        None
    }
}

impl HardConstraint {
    /// The verdict of this rule on the candidate: the message if the
    /// candidate fails, `None` if it passes.
    pub fn check(
        &self,
        exam: &Exam,
        room: &Room,
        start: &i64,
        is_check: bool,
        teachers: &[Teacher],
        exams: &[Exam],
    ) -> (verdict: Option<String>)
        ensures
            match hard_verdict(
                *self,
                exam@,
                room@,
                *start,
                is_check,
                models(teachers@),
                exam_ids(models(exams@)),
                exam_names(models(exams@)),
            ) {
                Some(message) => verdict is Some && verdict->0@ == message,
                None => verdict is None,
            },
    {
        match self {
            HardConstraint::RoomFree => check_room_free(exam, room, start, is_check),
            HardConstraint::RequiredTags => check_required_tags(exam, room),
            HardConstraint::ExaminersFree => check_examiners_free(exam, start, teachers, exams),
        }
    }
}

/// The score of the tags of the exam in a room: two for each required tag
/// that the room offers, one for each other tag that it offers.
pub fn score_matching_tags(exam: &Exam, room: &Room) -> (score: i32)
    ensures
        score == capped(tags_score(exam@.tags, room@.tags)),
{
    let ghost offered = strings(room.tags@);
    let ghost tags = models(exam.tags@);
    let mut score: i32 = 0;
    let mut i: usize = 0;
    assert(tags.take(0) =~= Seq::<TagModel>::empty());
    while i < exam.tags.len()
        invariant
            i <= exam.tags@.len(),
            tags == models(exam.tags@),
            offered == strings(room.tags@),
            score == capped(tags_score(tags.take(i as int), offered)),
        decreases exam.tags@.len() - i,
    {
        let tag = &exam.tags[i];
        proof {
            assert(tags.take(i + 1).drop_last() =~= tags.take(i as int));
            assert(tags.take(i + 1).last() == tag@);
            lemma_tags_score_bounds(tags.take(i as int), offered);
        }
        if crate::text::contains_text(&room.tags, &tag.name) {
            let gain: i32 = if tag.required {
                2
            } else {
                1
            };
            score = if score > i32::MAX - gain {
                i32::MAX
            } else {
                score + gain
            };
        }
        i += 1;
    }
    assert(tags.take(i as int) =~= tags);
    score
}

impl SoftConstraint {
    /// The score that this rule gives the candidate, capped.
    pub fn score(&self, exam: &Exam, room: &Room, start: &i64) -> (score: i32)
        ensures
            score == capped(soft_score(*self, exam@, room@, *start)),
    {
        match self {
            SoftConstraint::MatchingTags => score_matching_tags(exam, room),
        }
    }
}

impl Constraints {
    /// Asks the hard rules in their order and returns the message of the
    /// first that the candidate fails. `is_check` says that the candidate
    /// is a booking that is already made. `teachers` are the teachers of
    /// the plan and `exams` its finished exams.
    pub fn apply_hard(
        &self,
        value: &Exam,
        candidate: &(&Room, &i64),
        is_check: bool,
        teachers: &[Teacher],
        exams: &[Exam],
    ) -> (verdict: Result<(), String>)
        ensures
            match apply_hard_spec(
                self.hard@,
                value@,
                candidate.0@,
                *candidate.1,
                is_check,
                models(teachers@),
                models(exams@),
            ) {
                Some(message) => verdict is Err && verdict->Err_0@ == message,
                None => verdict is Ok,
            },
    {
        let ghost ids = exam_ids(models(exams@));
        let ghost names = exam_names(models(exams@));
        let mut i: usize = 0;
        while i < self.hard.len()
            invariant
                i <= self.hard@.len(),
                ids == exam_ids(models(exams@)),
                names == exam_names(models(exams@)),
                first_failure(
                    self.hard@,
                    value@,
                    candidate.0@,
                    *candidate.1,
                    is_check,
                    models(teachers@),
                    ids,
                    names,
                    0,
                ) == first_failure(
                    self.hard@,
                    value@,
                    candidate.0@,
                    *candidate.1,
                    is_check,
                    models(teachers@),
                    ids,
                    names,
                    i as int,
                ),
            decreases self.hard@.len() - i,
        {
            match self.hard[i].check(value, candidate.0, candidate.1, is_check, teachers, exams) {
                Some(message) => {
                    return Err(message);
                },
                None => {},
            }
            i += 1;
        }
        Ok(())
    }

    /// The sum of the scores that the soft rules give the candidate,
    /// capped.
    pub fn apply_soft(&self, value: &Exam, candidate: &(&Room, &i64)) -> (score: i32)
        ensures
            score == apply_soft_spec(self.soft@, value@, candidate.0@, *candidate.1),
    {
        let mut score: i32 = 0;
        let mut i: usize = 0;
        while i < self.soft.len()
            invariant
                i <= self.soft@.len(),
                score == capped(
                    total_score(self.soft@, value@, candidate.0@, *candidate.1, i as int),
                ),
            decreases self.soft@.len() - i,
        {
            proof {
                lemma_total_score_bounds(self.soft@, value@, candidate.0@, *candidate.1, i as int);
                lemma_tags_score_bounds(value@.tags, candidate.0@.tags);
            }
            let gain = self.soft[i].score(value, candidate.0, candidate.1);
            score = if score > i32::MAX - gain {
                i32::MAX
            } else {
                score + gain
            };
            i += 1;
        }
        score
    }
}

/// A filter leaves nothing exactly when no element passes it.
pub proof fn lemma_filter_empty<A>(s: Seq<A>, pred: spec_fn(A) -> bool)
    ensures
        s.filter(pred).len() == 0 <==> forall|i: int| 0 <= i < s.len() ==> !pred(#[trigger] s[i]),
    decreases s.len(),
{
    reveal(Seq::filter);
    if s.len() > 0 {
        let front = s.drop_last();
        lemma_filter_empty(front, pred);
        assert(front.push(s.last()) =~= s);
        lemma_filter_push(front, s.last(), pred);
        if s.filter(pred).len() == 0 {
            assert forall|i: int| 0 <= i < s.len() implies !pred(#[trigger] s[i]) by {
                if i < s.len() - 1 {
                    assert(front[i] == s[i]);
                }
            }
        } else {
            if forall|i: int| 0 <= i < s.len() ==> !pred(#[trigger] s[i]) {
                assert(!pred(s[s.len() - 1]));
                assert forall|i: int| 0 <= i < front.len() implies !pred(#[trigger] front[i]) by {
                    assert(front[i] == s[i]);
                }
            }
        }
    }
}

/// The rule `RequiredTags` passes a room exactly when the room offers every
/// tag that the exam requires.
pub proof fn lemma_required_tags_rule(exam: ExamModel, room: RoomModel)
    ensures
        required_tags_verdict(exam, room) is None <==> forall|i: int|
            0 <= i < exam.tags.len() && (#[trigger] exam.tags[i]).required ==> room.tags.contains(
                exam.tags[i].name,
            ),
{
    let pred = |tag: TagModel| tag.required && !room.tags.contains(tag.name);
    lemma_filter_empty(exam.tags, pred);
}

/// A candidate that fails the rule at `at` fails the rules as a whole.
pub proof fn lemma_failing_rule_fails(
    rules: Seq<HardConstraint>,
    exam: ExamModel,
    room: RoomModel,
    start: i64,
    is_check: bool,
    teachers: Seq<TeacherModel>,
    ids: Seq<u128>,
    names: Seq<Seq<char>>,
    from: int,
    at: int,
)
    requires
        0 <= from <= at < rules.len(),
        hard_verdict(rules[at], exam, room, start, is_check, teachers, ids, names) is Some,
    ensures
        first_failure(rules, exam, room, start, is_check, teachers, ids, names, from) is Some,
    decreases at - from,
{
    if from < at {
        lemma_failing_rule_fails(
            rules,
            exam,
            room,
            start,
            is_check,
            teachers,
            ids,
            names,
            from + 1,
            at,
        );
    }
}

/// A candidate that passes every rule passes the rules as a whole.
pub proof fn lemma_passing_rules_pass(
    rules: Seq<HardConstraint>,
    exam: ExamModel,
    room: RoomModel,
    start: i64,
    is_check: bool,
    teachers: Seq<TeacherModel>,
    ids: Seq<u128>,
    names: Seq<Seq<char>>,
    from: int,
)
    requires
        0 <= from,
        forall|at: int|
            from <= at < rules.len() ==> hard_verdict(
                #[trigger] rules[at],
                exam,
                room,
                start,
                is_check,
                teachers,
                ids,
                names,
            ) is None,
    ensures
        first_failure(rules, exam, room, start, is_check, teachers, ids, names, from) is None,
    decreases rules.len() - from,
{
    if from < rules.len() {
        assert(hard_verdict(rules[from], exam, room, start, is_check, teachers, ids, names) is None);
        lemma_passing_rules_pass(rules, exam, room, start, is_check, teachers, ids, names, from + 1);
    }
}

/// Any failure vetoes: a candidate passes the rules as a whole exactly when
/// it passes every single rule.
pub proof fn lemma_any_failure_vetoes(
    rules: Seq<HardConstraint>,
    exam: ExamModel,
    room: RoomModel,
    start: i64,
    is_check: bool,
    teachers: Seq<TeacherModel>,
    exams: Seq<ExamModel>,
)
    ensures
        apply_hard_spec(rules, exam, room, start, is_check, teachers, exams) is None <==> forall|
            at: int,
        |
            0 <= at < rules.len() ==> hard_verdict(
                #[trigger] rules[at],
                exam,
                room,
                start,
                is_check,
                teachers,
                exam_ids(exams),
                exam_names(exams),
            ) is None,
{
    let ids = exam_ids(exams);
    let names = exam_names(exams);
    if forall|at: int|
        0 <= at < rules.len() ==> hard_verdict(
            #[trigger] rules[at],
            exam,
            room,
            start,
            is_check,
            teachers,
            ids,
            names,
        ) is None {
        lemma_passing_rules_pass(rules, exam, room, start, is_check, teachers, ids, names, 0);
    } else {
        let at = choose|at: int|
            0 <= at < rules.len() && hard_verdict(
                #[trigger] rules[at],
                exam,
                room,
                start,
                is_check,
                teachers,
                ids,
                names,
            ) is Some;
        lemma_failing_rule_fails(rules, exam, room, start, is_check, teachers, ids, names, 0, at);
    }
}

/// Where the rules hold `RequiredTags`, a room that lacks a tag that the
/// exam requires is refused, at whatever time and in either mode.
pub proof fn lemma_missing_required_tag_is_refused(
    rules: Seq<HardConstraint>,
    exam: ExamModel,
    room: RoomModel,
    start: i64,
    is_check: bool,
    teachers: Seq<TeacherModel>,
    exams: Seq<ExamModel>,
    tag: int,
)
    requires
        rules.contains(HardConstraint::RequiredTags),
        0 <= tag < exam.tags.len(),
        exam.tags[tag].required,
        !room.tags.contains(exam.tags[tag].name),
    ensures
        apply_hard_spec(rules, exam, room, start, is_check, teachers, exams) is Some,
{
    lemma_required_tags_rule(exam, room);
    let at = choose|at: int| 0 <= at < rules.len() && rules[at] == HardConstraint::RequiredTags;
    lemma_failing_rule_fails(
        rules,
        exam,
        room,
        start,
        is_check,
        teachers,
        exam_ids(exams),
        exam_names(exams),
        0,
        at,
    );
}

/// A candidate: the place of a waiting exam, the place of a room and the
/// place of a slot in the timetable.
pub struct Candidate {
    pub exam: int,
    pub room: int,
    pub slot: int,
}

/// The instant at which a slot starts on the day whose midnight is `day`,
/// if that instant can be written down.
pub open spec fn slot_start(day: i64, lesson: TimetableLesson) -> Option<i64> {
    day.checked_add(lesson.start)
}

/// Whether `a` is tried before `b`: exams first, then rooms, then slots.
pub open spec fn comes_before(a: Candidate, b: Candidate) -> bool {
    a.exam < b.exam || (a.exam == b.exam && (a.room < b.room || (a.room == b.room && a.slot
        < b.slot)))
}

/// Whether the candidate names an exam that waits, a room and a slot of the
/// plan, and passes every hard rule.
pub open spec fn candidate_passes(plan: PlanModel, day: i64, c: Candidate) -> bool {
    &&& 0 <= c.exam < plan.unfinished_exams.len()
    &&& 0 <= c.room < plan.rooms.len()
    &&& 0 <= c.slot < plan.timetable.len()
    &&& slot_start(day, plan.timetable[c.slot]) is Some
    &&& apply_hard_spec(
        plan.hard,
        plan.unfinished_exams[c.exam],
        plan.rooms[c.room],
        slot_start(day, plan.timetable[c.slot])->0,
        false,
        plan.teachers,
        plan.finished_exams,
    ) is None
}

/// The score of the candidate under the soft rules.
pub open spec fn candidate_score(plan: PlanModel, day: i64, c: Candidate) -> int {
    apply_soft_spec(
        plan.soft,
        plan.unfinished_exams[c.exam],
        plan.rooms[c.room],
        slot_start(day, plan.timetable[c.slot])->0,
    )
}

/// Whether `best` is the best of the passing candidates that are tried
/// before `limit`: none of them scores higher, and none that scores the
/// same is tried before it. `None` says that none of them passes.
pub open spec fn best_before(plan: PlanModel, day: i64, best: Option<Candidate>, limit: Candidate) -> bool {
    match best {
        None => forall|c: Candidate|
            comes_before(c, limit) ==> !#[trigger] candidate_passes(plan, day, c),
        Some(b) => {
            &&& candidate_passes(plan, day, b)
            &&& comes_before(b, limit)
            &&& forall|c: Candidate|
                comes_before(c, limit) && #[trigger] candidate_passes(plan, day, c) ==> {
                    ||| candidate_score(plan, day, c) < candidate_score(plan, day, b)
                    ||| candidate_score(plan, day, c) == candidate_score(plan, day, b)
                        && !comes_before(c, b)
                }
        },
    }
}

/// Whether the scheduler picks `c` next: `c` passes, no passing candidate
/// scores higher, and of those that score the same `c` is tried first.
pub open spec fn is_chosen(plan: PlanModel, day: i64, c: Candidate) -> bool {
    &&& candidate_passes(plan, day, c)
    &&& forall|other: Candidate| #[trigger]
        candidate_passes(plan, day, other) ==> {
            ||| candidate_score(plan, day, other) < candidate_score(plan, day, c)
            ||| candidate_score(plan, day, other) == candidate_score(plan, day, c) && !comes_before(
                other,
                c,
            )
        }
}

/// The plan after the candidate was committed: the exam is booked into the
/// room at the start of the slot and moves from the waiting exams to the
/// end of the booked ones. The bookings carry a reference to the exam at
/// its new place.
pub open spec fn committed(plan: PlanModel, day: i64, c: Candidate) -> PlanModel {
    let payload = UuidRef::of(
        plan.unfinished_exams[c.exam].uuid,
        Some(plan.finished_exams.len() as usize),
    );
    let booked = plan.booked(
        ExamPlace::Unfinished(c.exam as usize),
        payload,
        c.room,
        slot_start(day, plan.timetable[c.slot])->0,
    );
    PlanModel {
        unfinished_exams: booked.unfinished_exams.remove(c.exam),
        finished_exams: booked.finished_exams.push(booked.unfinished_exams[c.exam]),
        ..booked
    }
}

/// The plan that the scheduler leaves: as long as some candidate passes,
/// the chosen one is committed; the candidates are judged anew after each
/// commitment.
pub open spec fn solved(plan: PlanModel, day: i64) -> PlanModel
    decreases plan.unfinished_exams.len(),
{
    if exists|c: Candidate| is_chosen(plan, day, c) {
        let c = choose|c: Candidate| is_chosen(plan, day, c);
        solved(committed(plan, day, c), day)
    } else {
        plan
    }
}

/// At most one candidate is chosen.
pub proof fn lemma_chosen_is_unique(plan: PlanModel, day: i64, a: Candidate, b: Candidate)
    requires
        is_chosen(plan, day, a),
        is_chosen(plan, day, b),
    ensures
        a == b,
{
}

/// Where no candidate passes, and so where no exam waits, the scheduler
/// leaves the plan as it is.
pub proof fn lemma_solved_when_stuck(plan: PlanModel, day: i64)
    requires
        forall|c: Candidate| !#[trigger] candidate_passes(plan, day, c),
    ensures
        solved(plan, day) == plan,
{
}

/// Where `c` is chosen, the scheduler goes on from the plan with `c`
/// committed.
pub proof fn lemma_solved_step(plan: PlanModel, day: i64, c: Candidate)
    requires
        is_chosen(plan, day, c),
    ensures
        solved(plan, day) == solved(committed(plan, day, c), day),
{
    let picked = choose|c: Candidate| is_chosen(plan, day, c);
    lemma_chosen_is_unique(plan, day, c, picked);
}

/// A commitment moves one exam from the waiting exams to the end of the
/// booked ones, paired, and leaves the exams that were booked before as
/// they were.
pub proof fn lemma_committed(plan: PlanModel, day: i64, c: Candidate)
    requires
        plan.unfinished_exams.len() <= usize::MAX,
        candidate_passes(plan, day, c),
    ensures
        committed(plan, day, c).unfinished_exams.len() == plan.unfinished_exams.len() - 1,
        committed(plan, day, c).finished_exams.len() == plan.finished_exams.len() + 1,
        committed(plan, day, c).finished_exams.last().pairing is Some,
        committed(plan, day, c).finished_exams.last().uuid == plan.unfinished_exams[c.exam].uuid,
        forall|m: int|
            0 <= m < plan.finished_exams.len() ==> #[trigger] committed(
                plan,
                day,
                c,
            ).finished_exams[m] == plan.finished_exams[m],
{
}

/// A run of the scheduler loses no exam and touches no exam that was
/// booked before it; every exam that it books is paired. This holds of
/// every plan whose waiting exams can be counted in a `usize`, as those of
/// a `PlanerData` can.
pub proof fn lemma_solved_keeps_what_is_booked(plan: PlanModel, day: i64)
    requires
        plan.unfinished_exams.len() <= usize::MAX,
    ensures
        solved(plan, day).unfinished_exams.len() + solved(plan, day).finished_exams.len()
            == plan.unfinished_exams.len() + plan.finished_exams.len(),
        solved(plan, day).finished_exams.len() >= plan.finished_exams.len(),
        forall|m: int|
            0 <= m < plan.finished_exams.len() ==> #[trigger] solved(plan, day).finished_exams[m]
                == plan.finished_exams[m],
        forall|m: int|
            plan.finished_exams.len() <= m < solved(plan, day).finished_exams.len() ==> (
            #[trigger] solved(plan, day).finished_exams[m]).pairing is Some,
    decreases plan.unfinished_exams.len(),
{
    if exists|c: Candidate| is_chosen(plan, day, c) {
        let c = choose|c: Candidate| is_chosen(plan, day, c);
        let next = committed(plan, day, c);
        lemma_committed(plan, day, c);
        lemma_solved_keeps_what_is_booked(next, day);
        assert forall|m: int| 0 <= m < plan.finished_exams.len() implies #[trigger] solved(
            plan,
            day,
        ).finished_exams[m] == plan.finished_exams[m] by {
            assert(solved(next, day).finished_exams[m] == next.finished_exams[m]);
        }
        assert forall|m: int|
            plan.finished_exams.len() <= m < solved(plan, day).finished_exams.len() implies (
        #[trigger] solved(plan, day).finished_exams[m]).pairing is Some by {
            if m == plan.finished_exams.len() {
                assert(solved(next, day).finished_exams[m] == next.finished_exams[m]);
            }
        }
    }
}

/// The best candidate: the places of the exam, the room and the slot, and
/// the start of the slot. `None` if no candidate passes.
pub fn best_candidate(data: &PlanerData, day: i64) -> (best: Option<(usize, usize, usize, i64)>)
    ensures
        match best {
            Some((i, j, k, start)) => {
                &&& is_chosen(data@, day, Candidate { exam: i as int, room: j as int, slot: k as int })
                &&& i < data.unfinished_exams@.len()
                &&& j < data.rooms@.len()
                &&& k < data.timetable.times@.len()
                &&& slot_start(day, data.timetable.times@[k as int]) == Some(start)
            },
            None => forall|c: Candidate| !#[trigger] candidate_passes(data@, day, c),
        },
{
    let ghost plan = data@;
    let exams = data.unfinished_exams.len();
    let rooms = data.rooms.len();
    let slots = data.timetable.times.len();
    let mut best: Option<(usize, usize, usize, i64)> = None;
    let mut best_score: i32 = 0;
    let ghost mut held: Option<Candidate> = None;
    let mut i: usize = 0;
    while i < exams
        invariant
            i <= exams,
            plan == data@,
            exams == data.unfinished_exams@.len(),
            rooms == data.rooms@.len(),
            slots == data.timetable.times@.len(),
            best_before(plan, day, held, Candidate { exam: i as int, room: 0, slot: 0 }),
            match best {
                Some((bi, bj, bk, start)) => {
                    &&& held == Some(Candidate { exam: bi as int, room: bj as int, slot: bk as int })
                    &&& best_score == candidate_score(plan, day, held->0)
                    &&& slot_start(day, plan.timetable[bk as int]) == Some(start)
                },
                None => held is None,
            },
        decreases exams - i,
    {
        let mut j: usize = 0;
        while j < rooms
            invariant
                i < exams,
                j <= rooms,
                plan == data@,
                exams == data.unfinished_exams@.len(),
                rooms == data.rooms@.len(),
                slots == data.timetable.times@.len(),
                best_before(plan, day, held, Candidate { exam: i as int, room: j as int, slot: 0 }),
                match best {
                    Some((bi, bj, bk, start)) => {
                        &&& held == Some(
                            Candidate { exam: bi as int, room: bj as int, slot: bk as int },
                        )
                        &&& best_score == candidate_score(plan, day, held->0)
                        &&& slot_start(day, plan.timetable[bk as int]) == Some(start)
                    },
                    None => held is None,
                },
            decreases rooms - j,
        {
            let mut k: usize = 0;
            while k < slots
                invariant
                    i < exams,
                    j < rooms,
                    k <= slots,
                    plan == data@,
                    exams == data.unfinished_exams@.len(),
                    rooms == data.rooms@.len(),
                    slots == data.timetable.times@.len(),
                    best_before(
                        plan,
                        day,
                        held,
                        Candidate { exam: i as int, room: j as int, slot: k as int },
                    ),
                    match best {
                        Some((bi, bj, bk, start)) => {
                            &&& held == Some(
                                Candidate { exam: bi as int, room: bj as int, slot: bk as int },
                            )
                            &&& best_score == candidate_score(plan, day, held->0)
                            &&& slot_start(day, plan.timetable[bk as int]) == Some(start)
                        },
                        None => held is None,
                    },
                decreases slots - k,
            {
                let ghost here = Candidate { exam: i as int, room: j as int, slot: k as int };
                let ghost next = Candidate { exam: i as int, room: j as int, slot: k + 1 };
                let ghost was = held;
                let mut passes = false;
                let mut score: i32 = 0;
                let mut begin: i64 = 0;
                match day.checked_add(data.timetable.times[k].start) {
                    Some(start) => {
                        let candidate = (&data.rooms[j], &start);
                        let verdict = data.constraints.apply_hard(
                            &data.unfinished_exams[i],
                            &candidate,
                            false,
                            data.teachers.as_slice(),
                            data.finished_exams.as_slice(),
                        );
                        if verdict.is_ok() {
                            passes = true;
                            begin = start;
                            score = data.constraints.apply_soft(&data.unfinished_exams[i], &candidate);
                        }
                    },
                    None => {},
                }
                assert(passes == candidate_passes(plan, day, here));
                if passes {
                    let better = match best {
                        Some(_) => score > best_score,
                        None => true,
                    };
                    if better {
                        best = Some((i, j, k, begin));
                        best_score = score;
                        proof {
                            held = Some(here);
                        }
                    }
                }
                proof {
                    assert forall|c: Candidate| comes_before(c, next) implies comes_before(c, here)
                        || c == here by {}
                    assert(best_before(plan, day, held, next));
                }
                k += 1;
            }
            proof {
                let done = Candidate { exam: i as int, room: j as int, slot: slots as int };
                let next = Candidate { exam: i as int, room: j + 1, slot: 0 };
                assert forall|c: Candidate|
                    comes_before(c, next) && candidate_passes(plan, day, c) implies comes_before(
                    c,
                    done,
                ) by {}
                assert(best_before(plan, day, held, next));
            }
            j += 1;
        }
        proof {
            let done = Candidate { exam: i as int, room: rooms as int, slot: 0 };
            let next = Candidate { exam: i + 1, room: 0, slot: 0 };
            assert forall|c: Candidate|
                comes_before(c, next) && candidate_passes(plan, day, c) implies comes_before(
                c,
                done,
            ) by {}
            assert(best_before(plan, day, held, next));
        }
        i += 1;
    }
    proof {
        let end = Candidate { exam: exams as int, room: 0, slot: 0 };
        assert forall|c: Candidate| candidate_passes(plan, day, c) implies comes_before(c, end) by {}
    }
    best
}

/// What a run of the scheduler booked: references to the exams that it
/// moved to the booked exams, in the order in which it booked them.
pub struct SolveResult {
    pub finished_exams: Vec<UuidRef<Exam>>,
}

/// The references that a run hands back for the exams that stand from
/// `from` on among `exams`.
pub open spec fn refs_from(exams: Seq<ExamModel>, from: int) -> Seq<UuidRef<Exam>> {
    Seq::new(
        (exams.len() - from) as nat,
        |m: int| UuidRef::of(exams[from + m].uuid, Some((from + m) as usize)),
    )
}

/// Books the waiting exams of `data` on the day whose midnight is `day`.
///
/// As long as an exam waits, every exam that waits is tried in every room
/// at every slot of the timetable. Of the candidates that pass the hard
/// rules the one with the highest score is booked; of several with that
/// score, the one that was tried first. A booked exam moves to the end of
/// the booked exams. The run ends with `Ok` when no exam waits any more, and
/// with `Err` when exams wait but no candidate passes; what was booked until
/// then stays booked.
pub fn solve(data: &mut PlanerData, day: i64) -> (result: Result<SolveResult, SolveResult>)
    ensures
        final(data)@ == solved(old(data)@, day),
        result is Ok <==> final(data)@.unfinished_exams.len() == 0,
        forall|c: Candidate| !#[trigger] candidate_passes(final(data)@, day, c),
        final(data)@.unfinished_exams.len() + final(data)@.finished_exams.len() == old(
            data,
        )@.unfinished_exams.len() + old(data)@.finished_exams.len(),
        final(data)@.finished_exams.len() >= old(data)@.finished_exams.len(),
        forall|m: int|
            0 <= m < old(data)@.finished_exams.len() ==> #[trigger] final(data)@.finished_exams[m]
                == old(data)@.finished_exams[m],
        ({
            let booked = match result {
                Ok(run) => run,
                Err(run) => run,
            };
            booked.finished_exams@ == refs_from(
                final(data)@.finished_exams,
                old(data)@.finished_exams.len() as int,
            )
        }),
{
    let ghost first = data@;
    let ghost from = first.finished_exams.len() as int;
    let mut done: Vec<UuidRef<Exam>> = Vec::new();
    assert(done@ =~= refs_from(data@.finished_exams, from));
    while data.unfinished_exams.len() > 0
        invariant
            first == old(data)@,
            from == first.finished_exams.len(),
            solved(first, day) == solved(data@, day),
            data@.finished_exams.len() >= from,
            data@.unfinished_exams.len() + data@.finished_exams.len()
                == first.unfinished_exams.len() + first.finished_exams.len(),
            forall|m: int|
                0 <= m < from ==> #[trigger] data@.finished_exams[m] == first.finished_exams[m],
            done@ == refs_from(data@.finished_exams, from),
        decreases data.unfinished_exams@.len(),
    {
        match best_candidate(data, day) {
            Some((i, j, k, start)) => {
                let ghost plan = data@;
                let ghost c = Candidate { exam: i as int, room: j as int, slot: k as int };
                let place = data.finished_exams.len();
                let payload = UuidRef::new(&data.unfinished_exams[i], place);
                done.push(payload.clone());
                data.book_at(ExamPlace::Unfinished(i), payload, j, start);
                let exam = data.unfinished_exams.remove(i);
                data.finished_exams.push(exam);
                proof {
                    lemma_solved_step(plan, day, c);
                    let want = committed(plan, day, c);
                    assert(data@.unfinished_exams =~= want.unfinished_exams);
                    assert(data@.finished_exams =~= want.finished_exams);
                    assert(data@ == want);
                    assert forall|m: int| 0 <= m < plan.finished_exams.len() implies data@.finished_exams[m]
                        == plan.finished_exams[m] by {}
                    assert(done@ =~= refs_from(data@.finished_exams, from));
                }
            },
            None => {
                proof {
                    lemma_solved_when_stuck(data@, day);
                }
                return Err(SolveResult { finished_exams: done });
            },
        }
    }
    proof {
        lemma_solved_when_stuck(data@, day);
    }
    Ok(SolveResult { finished_exams: done })
}

impl PlanerData {
    /// Books the waiting exams on the day whose midnight is `day`, as
    /// [`solve`] does, and recomputes the conflicts of the booked exams.
    /// Exams that could not be booked go on waiting.
    pub fn solve(&mut self, day: i64)
        ensures
            final(self)@ == solved(old(self)@, day).conflicts_computed(),
    {
        let _ = solve(self, day);
        self.compute_conflicts();
    }
}

} // verus!
