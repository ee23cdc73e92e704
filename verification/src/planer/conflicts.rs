//! Conflicts: what is wrong with the bookings that are already made.
//!
//! A booking that passed the rules when it was made may fail them later: a
//! room loses a tag, an examiner is booked elsewhere. Recomputing the
//! conflicts asks the rules again of every booked exam and notes the answer
//! on the exam. It changes no booking.

use super::uuid_ref::{UuidRef, resolve};
use super::{
    ExamModel, PlanModel, PlanerData, Room, RoomModel, TeacherModel, lemma_room_ids, room_ids,
};
use crate::solver::{
    HardConstraint, any_examiner_busy, apply_hard_spec, busy_lines, exam_ids, exam_names,
    examiner_line, first_failure, hard_verdict,
};
use vstd::prelude::*;

verus! {

/// Whether `a` and `b` are the same exam but for the error noted on them.
pub open spec fn same_but_error(a: ExamModel, b: ExamModel) -> bool {
    a == (ExamModel { error: a.error, ..b })
}

impl PlanModel {
    /// The error of the booked exam at `i` after the conflicts were
    /// recomputed. An exam without a pairing, or whose room cannot be
    /// found, keeps what was noted on it.
    pub open spec fn checked_error(self, i: int) -> Option<Seq<char>> {
        let exam = self.finished_exams[i];
        match exam.pairing {
            Some((room, start)) => match resolve(room.item, room.uuid, room_ids(self.rooms)) {
                Some(j) => apply_hard_spec(
                    self.hard,
                    exam,
                    self.rooms[j],
                    start,
                    true,
                    self.teachers,
                    self.finished_exams,
                ),
                None => exam.error,
            },
            None => exam.error,
        }
    }

    /// The plan with the conflicts recomputed for the first `upto` booked
    /// exams.
    pub open spec fn conflicts_computed_upto(self, upto: int) -> PlanModel {
        PlanModel {
            finished_exams: Seq::new(
                self.finished_exams.len(),
                |i: int|
                    if i < upto {
                        ExamModel { error: self.checked_error(i), ..self.finished_exams[i] }
                    } else {
                        self.finished_exams[i]
                    },
            ),
            ..self
        }
    }

    /// The plan with the conflicts recomputed: every booked exam carries
    /// the message of the first hard rule that its booking fails, or none.
    pub open spec fn conflicts_computed(self) -> PlanModel {
        self.conflicts_computed_upto(self.finished_exams.len() as int)
    }

    /// What `recompute_if_scheduled` makes of the plan.
    pub open spec fn recomputed_if_scheduled(self) -> PlanModel {
        if self.needs_recompute {
            PlanModel { needs_recompute: false, ..self.conflicts_computed() }
        } else {
            self
        }
    }
}

impl PlanerData {
    /// Asks the hard rules of every booked exam, as of a booking that is
    /// already made, and notes the message of the first rule that fails on
    /// the exam, or that none fails. No booking is changed.
    pub fn compute_conflicts(&mut self)
        ensures
            final(self)@ == old(self)@.conflicts_computed(),
    {
        let ghost first = self@;
        let mut i: usize = 0;
        proof {
            lemma_room_ids(self.rooms@);
            assert(self@.finished_exams =~= first.conflicts_computed_upto(0).finished_exams);
        }
        while i < self.finished_exams.len()
            invariant
                i <= self.finished_exams@.len(),
                first == old(self)@,
                self.finished_exams@.len() == first.finished_exams.len(),
                self@ == first.conflicts_computed_upto(i as int),
            decreases self.finished_exams@.len() - i,
        {
            let ghost now = self@;
            proof {
                lemma_room_ids(self.rooms@);
                assert(exam_ids(now.finished_exams) =~= exam_ids(first.finished_exams));
                assert(exam_names(now.finished_exams) =~= exam_names(first.finished_exams));
                assert(now.finished_exams[i as int] == first.finished_exams[i as int]);
            }
            let found: Option<Option<String>> = match &self.finished_exams[i].pairing {
                Some((room, start)) => match room.position(self.rooms.as_slice()) {
                    Some(j) => {
                        let verdict = self.constraints.apply_hard(
                            &self.finished_exams[i],
                            &(&self.rooms[j], start),
                            true,
                            self.teachers.as_slice(),
                            self.finished_exams.as_slice(),
                        );
                        match verdict {
                            Ok(_) => Some(None),
                            Err(message) => Some(Some(message)),
                        }
                    },
                    None => None,
                },
                None => None,
            };
            match found {
                Some(error) => {
                    self.finished_exams[i].error = error;
                },
                None => {},
            }
            proof {
                assert(self@.finished_exams[i as int] == (ExamModel {
                    error: first.checked_error(i as int),
                    ..first.finished_exams[i as int]
                }));
                assert forall|j: int| 0 <= j < first.finished_exams.len() implies self@.finished_exams[j]
                    == first.conflicts_computed_upto(i + 1).finished_exams[j] by {
                    if j != i {
                        assert(self@.finished_exams[j] == now.finished_exams[j]);
                    }
                }
                assert(self@.finished_exams =~= first.conflicts_computed_upto(i + 1).finished_exams);
            }
            i += 1;
        }
    }

    /// Recomputes the conflicts if a change was noted since they were last
    /// computed, and forgets the note.
    pub fn recompute_if_scheduled(&mut self)
        ensures
            final(self)@ == old(self)@.recomputed_if_scheduled(),
    {
        if self.needs_recompute {
            self.compute_conflicts();
            self.needs_recompute = false;
        }
    }
}

/// The lines of the busy examiners do not depend on the error that is noted
/// on the exam.
pub proof fn lemma_busy_lines_ignore_error(
    a: ExamModel,
    b: ExamModel,
    start: int,
    teachers: Seq<TeacherModel>,
    ids: Seq<u128>,
    names: Seq<Seq<char>>,
    upto: int,
)
    requires
        same_but_error(a, b),
    ensures
        busy_lines(a, start, teachers, ids, names, upto) == busy_lines(
            b,
            start,
            teachers,
            ids,
            names,
            upto,
        ),
        any_examiner_busy(a, start, teachers, ids, names, upto) == any_examiner_busy(
            b,
            start,
            teachers,
            ids,
            names,
            upto,
        ),
    decreases upto,
{
    if 0 < upto <= a.examiners.len() {
        lemma_busy_lines_ignore_error(a, b, start, teachers, ids, names, upto - 1);
    }
    if any_examiner_busy(a, start, teachers, ids, names, upto) {
        let k = choose|k: int|
            0 <= k < upto && k < a.examiners.len() && (#[trigger] examiner_line(
                a.examiners[k],
                a.uuid,
                start,
                a.duration as int,
                teachers,
                ids,
                names,
            )) is Some;
        assert(examiner_line(b.examiners[k], b.uuid, start, b.duration as int, teachers, ids, names)
            is Some);
    }
    if any_examiner_busy(b, start, teachers, ids, names, upto) {
        let k = choose|k: int|
            0 <= k < upto && k < b.examiners.len() && (#[trigger] examiner_line(
                b.examiners[k],
                b.uuid,
                start,
                b.duration as int,
                teachers,
                ids,
                names,
            )) is Some;
        assert(examiner_line(a.examiners[k], a.uuid, start, a.duration as int, teachers, ids, names)
            is Some);
    }
}

/// The verdict of the rules does not depend on the error that is noted on
/// the exam.
pub proof fn lemma_verdict_ignores_error(
    rules: Seq<HardConstraint>,
    a: ExamModel,
    b: ExamModel,
    room: RoomModel,
    start: i64,
    is_check: bool,
    teachers: Seq<TeacherModel>,
    ids: Seq<u128>,
    names: Seq<Seq<char>>,
    from: int,
)
    requires
        same_but_error(a, b),
    ensures
        first_failure(rules, a, room, start, is_check, teachers, ids, names, from) == first_failure(
            rules,
            b,
            room,
            start,
            is_check,
            teachers,
            ids,
            names,
            from,
        ),
    decreases rules.len() - from,
{
    if 0 <= from < rules.len() {
        lemma_busy_lines_ignore_error(
            a,
            b,
            start as int,
            teachers,
            ids,
            names,
            a.examiners.len() as int,
        );
        assert(hard_verdict(rules[from], a, room, start, is_check, teachers, ids, names)
            == hard_verdict(rules[from], b, room, start, is_check, teachers, ids, names));
        lemma_verdict_ignores_error(
            rules,
            a,
            b,
            room,
            start,
            is_check,
            teachers,
            ids,
            names,
            from + 1,
        );
    }
}

/// Recomputing the conflicts twice is the same as recomputing them once:
/// on a plan whose conflicts are computed, another pass changes nothing and
/// so notes no new error.
pub proof fn lemma_conflicts_idempotent(plan: PlanModel)
    ensures
        plan.conflicts_computed().conflicts_computed() == plan.conflicts_computed(),
{
    let once = plan.conflicts_computed();
    let twice = once.conflicts_computed();
    assert(exam_ids(once.finished_exams) =~= exam_ids(plan.finished_exams));
    assert(exam_names(once.finished_exams) =~= exam_names(plan.finished_exams));
    assert forall|i: int| 0 <= i < plan.finished_exams.len() implies twice.finished_exams[i]
        == once.finished_exams[i] by {
        let was = plan.finished_exams[i];
        let now = once.finished_exams[i];
        assert(same_but_error(now, was));
        match was.pairing {
            Some((room, start)) => {
                match resolve(room.item, room.uuid, room_ids(plan.rooms)) {
                    Some(j) => {
                        lemma_verdict_ignores_error(
                            plan.hard,
                            now,
                            was,
                            plan.rooms[j],
                            start,
                            true,
                            plan.teachers,
                            exam_ids(plan.finished_exams),
                            exam_names(plan.finished_exams),
                            0,
                        );
                    },
                    None => {},
                }
            },
            None => {},
        }
    }
    assert(twice.finished_exams =~= once.finished_exams);
}

/// In a plan whose references are settled, as they are after a plan was
/// revalidated, no booked exam whose room is in the plan is passed over:
/// recomputing the conflicts notes on it what the rules say of its booking
/// in that room.
pub proof fn lemma_settled_plan_is_checked(
    plan: PlanModel,
    i: int,
    room: UuidRef<Room>,
    start: i64,
)
    requires
        plan.settled(),
        0 <= i < plan.finished_exams.len(),
        plan.finished_exams[i].pairing == Some((room, start)),
        room_ids(plan.rooms).contains(room.uuid),
    ensures
        match resolve(room.item, room.uuid, room_ids(plan.rooms)) {
            Some(j) => {
                &&& 0 <= j < plan.rooms.len()
                &&& plan.rooms[j].uuid == room.uuid
                &&& plan.conflicts_computed().finished_exams[i].error == apply_hard_spec(
                    plan.hard,
                    plan.finished_exams[i],
                    plan.rooms[j],
                    start,
                    true,
                    plan.teachers,
                    plan.finished_exams,
                )
            },
            None => false,
        },
{
    assert(super::exam_settled(
        plan.finished_exams[i],
        super::student_ids(plan.students),
        crate::solver::teacher_ids(plan.teachers),
        room_ids(plan.rooms),
    ));
}

} // verus!
