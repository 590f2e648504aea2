//! The views that whole pages are made from: a concept, an activity, a
//! representation, a course, and the progression through the courses.

use crate::activity::{Activity, ActivityView};
use crate::concept::{keys_of, Concept, ConceptRepresentationView, ConceptView};
use crate::data::ConceptChoice;
use crate::data::{
    ActivityChoice, ActivityGroup, AnyChoice, Child, Course, CourseSequence, Data, PrereqCourse,
    ProgressionGroup, ProgressionView,
};
use crate::graph::ascending;
use crate::ids::{ActivityID, ConceptID, ConceptRepresentationID, CourseID, RepresentationID};
use crate::data::holds_activity;
use crate::representation::{Representation, RepresentationView};
use crate::text::{has_text, texts_ascending};
use crate::views::{
    arranged, copy_activities, has_group, holds_concept, holds_representation, id_before,
    ids_ascending, ids_of, insert_id, same_activities, shapes, GroupShape,
};
use vstd::prelude::*;

verus! {

/// The concept as such.
pub open spec fn plain(c: ConceptID) -> ConceptRepresentationID {
    ConceptRepresentationID { concept: c, representation: None }
}

/// The concepts as such.
pub open spec fn plains(ids: Seq<ConceptID>) -> Seq<ConceptRepresentationID> {
    Seq::new(ids.len(), |i: int| plain(ids[i]))
}

/// The concept in each of the representations.
pub open spec fn in_representations(c: ConceptID, reps: Seq<usize>) -> Seq<ConceptRepresentationID> {
    Seq::new(
        reps.len(),
        |i: int| ConceptRepresentationID { concept: c, representation: Some(RepresentationID(reps[i])) },
    )
}

/// What a course with concepts is, going by identifiers.
pub struct CourseShape {
    pub course: CourseID,
    pub concepts: Seq<ConceptRepresentationID>,
}

/// What the course with its concepts is, going by identifiers.
pub open spec fn course_shape(p: PrereqCourse) -> CourseShape {
    CourseShape { course: p.course.id, concepts: ids_of(p.concepts@) }
}

/// What the courses with their concepts are, going by identifiers.
pub open spec fn course_shapes(ps: Seq<PrereqCourse>) -> Seq<CourseShape> {
    Seq::new(ps.len(), |i: int| course_shape(ps[i]))
}

/// `copies` hold the same as `stored`, one for one.
pub open spec fn same_concepts(copies: Seq<Concept>, stored: Seq<Concept>) -> bool {
    &&& copies.len() == stored.len()
    &&& forall|i: int| 0 <= i < copies.len() ==> (#[trigger] copies[i]).same(&stored[i])
}

/// Whether `id` is among `ids`.
pub fn holds_plain(ids: &Vec<ConceptID>, id: ConceptID) -> (b: bool)
    ensures
        b == ids@.contains(id),
{
    let mut i: usize = 0;
    while i < ids.len()
        invariant
            i <= ids.len(),
            forall|j: int| 0 <= j < i ==> ids@[j] != id,
        decreases ids.len() - i,
    {
        if ids[i] == id {
            return true;
        }
        i += 1;
    }
    false
}

/// The concepts as such.
pub fn as_plain(ids: &Vec<ConceptID>) -> (out: Vec<ConceptRepresentationID>)
    ensures
        out@ == plains(ids@),
{
    let mut out: Vec<ConceptRepresentationID> = Vec::new();
    let mut i: usize = 0;
    while i < ids.len()
        invariant
            i <= ids.len(),
            out@.len() == i,
            forall|j: int| 0 <= j < i ==> out@[j] == plain(ids@[j]),
        decreases ids.len() - i,
    {
        out.push(ConceptRepresentationID { concept: ids[i], representation: None });
        i += 1;
    }
    assert(out@ =~= plains(ids@));
    out
}

impl Data {
    /// Among the first `n` concepts of the store: the identifiers of those
    /// that are among `wanted`.
    pub open spec fn picked(&self, wanted: Seq<ConceptID>, n: int) -> Seq<ConceptID>
        decreases n,
    {
        if n <= 0 {
            Seq::empty()
        } else if wanted.contains(self.concepts@[n - 1].id) {
            self.picked(wanted, n - 1).push(self.concepts@[n - 1].id)
        } else {
            self.picked(wanted, n - 1)
        }
    }

    /// Among the first `n` concepts of the store: the identifiers of those
    /// that ask for `id`.
    pub open spec fn dependents(&self, id: ConceptID, n: int) -> Seq<ConceptID>
        decreases n,
    {
        if n <= 0 {
            Seq::empty()
        } else if self.concepts@[n - 1].prereq_concepts@.contains(id) {
            self.dependents(id, n - 1).push(self.concepts@[n - 1].id)
        } else {
            self.dependents(id, n - 1)
        }
    }

    /// Among the first `n` of `ids`: those that the course at `course`
    /// teaches.
    pub open spec fn taught_in(&self, ids: Seq<ConceptID>, course: int, n: int) -> Seq<ConceptID>
        decreases n,
    {
        if n <= 0 {
            Seq::empty()
        } else if self.course_teaches(plain(ids[n - 1]), course) {
            self.taught_in(ids, course, n - 1).push(ids[n - 1])
        } else {
            self.taught_in(ids, course, n - 1)
        }
    }

    /// The prerequisites of the concept `id`, in the order of the store.
    pub open spec fn prereqs_of(&self, id: ConceptID) -> Seq<ConceptID> {
        self.picked(self.concepts@[id.0 as int].prereq_concepts@, self.concepts@.len() as int)
    }

    /// Among the first `n` courses: those that teach a prerequisite of the
    /// concept `id` and not the concept itself, each with the prerequisites it
    /// teaches.
    pub open spec fn earlier_courses(&self, id: ConceptID, n: int) -> Seq<CourseShape>
        decreases n,
    {
        if n <= 0 {
            Seq::empty()
        } else {
            let mine = self.prereqs_of(id);
            let taught = self.taught_in(mine, n - 1, mine.len() as int);
            if taught.len() > 0 && !self.course_teaches(plain(id), n - 1) {
                self.earlier_courses(id, n - 1).push(
                    CourseShape { course: self.courses@[n - 1].id, concepts: plains(taught) },
                )
            } else {
                self.earlier_courses(id, n - 1)
            }
        }
    }

    /// One of `courses` teaches the concept `x`.
    pub open spec fn taught_earlier(&self, x: ConceptID, courses: Seq<CourseShape>) -> bool {
        exists|k: int|
            0 <= k < courses.len() && self.course_teaches(
                plain(x),
                (#[trigger] courses[k]).course.0 as int,
            )
    }

    /// Among the first `n` prerequisites of the concept `id`, in its own
    /// order: those that no earlier course teaches.
    pub open spec fn open_prereqs(&self, id: ConceptID, n: int) -> Seq<ConceptID>
        decreases n,
    {
        if n <= 0 {
            Seq::empty()
        } else {
            let x = self.concepts@[id.0 as int].prereq_concepts@[n - 1];
            if self.taught_earlier(x, self.earlier_courses(id, self.courses@.len() as int)) {
                self.open_prereqs(id, n - 1)
            } else {
                self.open_prereqs(id, n - 1).push(x)
            }
        }
    }

    /// The concepts among `wanted`, in the order of the store.
    pub fn pick(&self, wanted: &Vec<ConceptID>) -> (out: Vec<ConceptID>)
        ensures
            out@ == self.picked(wanted@, self.concepts@.len() as int),
    {
        let mut out: Vec<ConceptID> = Vec::new();
        let mut i: usize = 0;
        while i < self.concepts.len()
            invariant
                i <= self.concepts.len(),
                out@ == self.picked(wanted@, i as int),
            decreases self.concepts.len() - i,
        {
            if holds_plain(wanted, self.concepts[i].id) {
                out.push(self.concepts[i].id);
            }
            i += 1;
        }
        out
    }

    /// The concepts that ask for `id`.
    pub fn dependents_of(&self, id: ConceptID) -> (out: Vec<ConceptID>)
        ensures
            out@ == self.dependents(id, self.concepts@.len() as int),
    {
        let mut out: Vec<ConceptID> = Vec::new();
        let mut i: usize = 0;
        while i < self.concepts.len()
            invariant
                i <= self.concepts.len(),
                out@ == self.dependents(id, i as int),
            decreases self.concepts.len() - i,
        {
            if holds_plain(&self.concepts[i].prereq_concepts, id) {
                out.push(self.concepts[i].id);
            }
            i += 1;
        }
        out
    }

    /// What is shown of the concepts `ids`, as such, inside the thing
    /// `parent`, whose relationship `field` they can be removed from.
    pub fn views_of(&self, ids: &Vec<ConceptRepresentationID>, parent: &str, field: &str) -> (out:
        Vec<Child<ConceptRepresentationView>>)
        requires
            forall|i: int| 0 <= i < ids@.len() ==> self.known(#[trigger] ids@[i]),
        ensures
            ids_of(out@) == ids@,
    {
        let mut out: Vec<Child<ConceptRepresentationView>> = Vec::new();
        let mut i: usize = 0;
        while i < ids.len()
            invariant
                i <= ids.len(),
                forall|i: int| 0 <= i < ids@.len() ==> self.known(#[trigger] ids@[i]),
                out@.len() == i,
                forall|j: int| 0 <= j < i ==> (#[trigger] out@[j]).child.id == ids@[j],
            decreases ids.len() - i,
        {
            out.push(self.concept_representation_view(parent.to_owned(), field, ids[i]));
            i += 1;
        }
        assert(ids_of(out@) =~= ids@);
        out
    }

    /// Those of `ids` that the course `course` teaches.
    pub fn those_taught_in(&self, ids: &Vec<ConceptID>, course: CourseID) -> (out: Vec<ConceptID>)
        requires
            self.linked(),
            course.0 < self.courses@.len(),
        ensures
            out@ == self.taught_in(ids@, course.0 as int, ids@.len() as int),
    {
        let mut out: Vec<ConceptID> = Vec::new();
        let mut i: usize = 0;
        while i < ids.len()
            invariant
                i <= ids.len(),
                self.linked(),
                course.0 < self.courses@.len(),
                out@ == self.taught_in(ids@, course.0 as int, i as int),
            decreases ids.len() - i,
        {
            let nid = ConceptRepresentationID { concept: ids[i], representation: None };
            if self.course_is_for_concept(nid, course) {
                out.push(ids[i]);
            }
            i += 1;
        }
        out
    }

    /// The picked concepts are concepts of the store.
    pub proof fn lemma_picked(&self, wanted: Seq<ConceptID>, n: int)
        requires
            self.wf(),
            0 <= n <= self.concepts@.len(),
        ensures
            forall|k: int|
                0 <= k < self.picked(wanted, n).len() ==> (#[trigger] self.picked(wanted, n)[k]).0
                    < n,
        decreases n,
    {
        if n > 0 {
            self.lemma_picked(wanted, n - 1);
            let p0 = self.picked(wanted, n - 1);
            let p = self.picked(wanted, n);
            assert forall|k: int| 0 <= k < p.len() implies (#[trigger] p[k]).0 < n by {
                if k < p0.len() {
                    assert(p[k] == p0[k]);
                }
            }
        }
    }

    /// What is taught is among what was asked about.
    pub proof fn lemma_taught_in(&self, ids: Seq<ConceptID>, course: int, n: int)
        requires
            0 <= n <= ids.len(),
        ensures
            forall|k: int|
                0 <= k < self.taught_in(ids, course, n).len() ==> ids.contains(
                    #[trigger] self.taught_in(ids, course, n)[k],
                ),
        decreases n,
    {
        if n > 0 {
            self.lemma_taught_in(ids, course, n - 1);
            assert(ids.contains(ids[n - 1]));
            let t0 = self.taught_in(ids, course, n - 1);
            let t = self.taught_in(ids, course, n);
            assert forall|k: int| 0 <= k < t.len() implies ids.contains(#[trigger] t[k]) by {
                if k < t0.len() {
                    assert(t[k] == t0[k]);
                }
            }
        }
    }

    /// The courses that teach a prerequisite of the concept `id` and not the
    /// concept itself, each with the prerequisites it teaches.
    pub fn courses_before_concept(&self, id: ConceptID) -> (out: Vec<PrereqCourse>)
        requires
            self.linked(),
            id.0 < self.concepts@.len(),
        ensures
            course_shapes(out@) == self.earlier_courses(id, self.courses@.len() as int),
    {
        let mine = self.pick(&self.concepts[id.0].prereq_concepts);
        proof {
            self.lemma_picked(
                self.concepts@[id.0 as int].prereq_concepts@,
                self.concepts@.len() as int,
            );
        }
        let parent = id.html();
        let me = ConceptRepresentationID { concept: id, representation: None };
        let mut out: Vec<PrereqCourse> = Vec::new();
        let mut i: usize = 0;
        assert(course_shapes(out@) =~= self.earlier_courses(id, 0));
        while i < self.courses.len()
            invariant
                i <= self.courses.len(),
                self.linked(),
                id.0 < self.concepts@.len(),
                me == plain(id),
                mine@ == self.prereqs_of(id),
                forall|k: int| 0 <= k < mine@.len() ==>
                    (#[trigger] mine@[k]).0 < self.concepts@.len(),
                course_shapes(out@) == self.earlier_courses(id, i as int),
            decreases self.courses.len() - i,
        {
            let course = &self.courses[i];
            assert(course.id.0 == i);
            let taught = self.those_taught_in(&mine, course.id);
            if taught.len() > 0 && !self.course_is_for_concept(me, course.id) {
                let ids = as_plain(&taught);
                proof {
                    self.lemma_taught_in(mine@, i as int, mine@.len() as int);
                    assert forall|k: int| 0 <= k < ids@.len() implies self.known(
                        #[trigger] ids@[k],
                    ) by {
                        assert(mine@.contains(taught@[k]));
                    }
                }
                let concepts = self.views_of(&ids, parent.as_str(), "prereq");
                let ghost before = course_shapes(out@);
                out.push(PrereqCourse { course: course.clone(), concepts });
                assert(course_shapes(out@) =~= before.push(course_shape(out@[out@.len() - 1])));
            }
            i += 1;
        }
        out
    }
}

/// Copies of the concepts.
pub fn copy_concepts(v: &Vec<Concept>) -> (out: Vec<Concept>)
    ensures
        same_concepts(out@, v@),
{
    let out = v.clone();
    assert forall|i: int| 0 <= i < out@.len() implies (#[trigger] out@[i]).same(&v@[i]) by {
        assert(cloned(v@[i], out@[i]));
    }
    out
}

/// The activity asks for the concept `id`, as such or in a representation.
pub open spec fn asks_for(a: Activity, id: ConceptID) -> bool {
    exists|k: int| 0 <= k < a.prereq_concepts@.len() && (#[trigger] a.prereq_concepts@[k]).concept
        == id
}

/// Whether the activity asks for the concept `id`.
pub fn asks(a: &Activity, id: ConceptID) -> (b: bool)
    ensures
        b == asks_for(*a, id),
{
    let mut k: usize = 0;
    while k < a.prereq_concepts.len()
        invariant
            k <= a.prereq_concepts.len(),
            forall|j: int| 0 <= j < k ==> (#[trigger] a.prereq_concepts@[j]).concept != id,
        decreases a.prereq_concepts.len() - k,
    {
        if a.prereq_concepts[k].concept == id {
            return true;
        }
        k += 1;
    }
    false
}

/// The names, one for one.
pub open spec fn names_are(names: Seq<String>, texts: Seq<Seq<char>>) -> bool {
    &&& names.len() == texts.len()
    &&& forall|i: int| 0 <= i < names.len() ==> (#[trigger] names[i])@ == texts[i]
}

impl Data {
    /// The groups with one more for the activity `a`, unless there is one.
    pub open spec fn with_activity(&self, groups: Seq<GroupShape>, a: ActivityID) -> Seq<GroupShape> {
        if has_group(groups, a) {
            groups
        } else {
            groups.push(
                GroupShape {
                    activity: Some(a),
                    concepts: Seq::empty(),
                    hints: self.activities@[a.0 as int].new_concepts@,
                },
            )
        }
    }

    /// The groups with one more for each of the first `n` activities that
    /// asks for the concept `id` and has none.
    pub open spec fn with_askers(&self, groups: Seq<GroupShape>, id: ConceptID, n: int) -> Seq<
        GroupShape,
    >
        decreases n,
    {
        if n <= 0 {
            groups
        } else if asks_for(self.activities@[n - 1], id) {
            self.with_activity(self.with_askers(groups, id, n - 1), self.activities@[n - 1].id)
        } else {
            self.with_askers(groups, id, n - 1)
        }
    }

    /// The names of the representations, in the order of the store.
    pub open spec fn representation_names(&self) -> Seq<Seq<char>> {
        Seq::new(self.representations@.len(), |i: int| self.representations@[i].name@)
    }

    /// The courses at whose places the identifiers point, one for one.
    pub open spec fn courses_are(&self, courses: Seq<Course>, ids: Seq<CourseID>) -> bool {
        &&& courses.len() == ids.len()
        &&& forall|k: int|
            0 <= k < courses.len() ==> (#[trigger] courses[k]).same(&self.courses@[ids[k].0 as int])
    }

    /// The earlier courses are courses of the store.
    pub proof fn lemma_earlier_courses(&self, id: ConceptID, n: int)
        requires
            self.wf(),
            0 <= n <= self.courses@.len(),
        ensures
            forall|k: int|
                0 <= k < self.earlier_courses(id, n).len() ==> (#[trigger] self.earlier_courses(
                    id,
                    n,
                )[k]).course.0 < n,
        decreases n,
    {
        if n > 0 {
            self.lemma_earlier_courses(id, n - 1);
            let e0 = self.earlier_courses(id, n - 1);
            let e = self.earlier_courses(id, n);
            assert forall|k: int| 0 <= k < e.len() implies (#[trigger] e[k]).course.0 < n by {
                if k < e0.len() {
                    assert(e[k] == e0[k]);
                }
            }
        }
    }

    /// The courses that teach are courses of the store.
    pub proof fn lemma_courses_teaching(&self, nid: ConceptRepresentationID, n: int)
        requires
            self.wf(),
            0 <= n <= self.courses@.len(),
        ensures
            forall|k: int|
                0 <= k < self.courses_teaching(nid, n).len() ==> (#[trigger] self.courses_teaching(
                    nid,
                    n,
                )[k]).0 < n,
        decreases n,
    {
        if n > 0 {
            self.lemma_courses_teaching(nid, n - 1);
            let e0 = self.courses_teaching(nid, n - 1);
            let e = self.courses_teaching(nid, n);
            assert forall|k: int| 0 <= k < e.len() implies (#[trigger] e[k]).0 < n by {
                if k < e0.len() {
                    assert(e[k] == e0[k]);
                }
            }
        }
    }

    /// Whether one of `courses` teaches the concept `x`.
    pub fn taught_by_one_of(&self, x: ConceptID, courses: &Vec<PrereqCourse>) -> (b: bool)
        requires
            self.linked(),
            forall|k: int|
                0 <= k < courses@.len() ==> (#[trigger] courses@[k]).course.id.0
                    < self.courses@.len(),
        ensures
            b == self.taught_earlier(x, course_shapes(courses@)),
    {
        let nid = ConceptRepresentationID { concept: x, representation: None };
        let mut k: usize = 0;
        while k < courses.len()
            invariant
                k <= courses.len(),
                self.linked(),
                nid == plain(x),
                forall|k: int|
                    0 <= k < courses@.len() ==> (#[trigger] courses@[k]).course.id.0
                        < self.courses@.len(),
                forall|j: int|
                    0 <= j < k ==> !self.course_teaches(
                        plain(x),
                        (#[trigger] course_shapes(courses@)[j]).course.0 as int,
                    ),
            decreases courses.len() - k,
        {
            assert(course_shapes(courses@)[k as int] == course_shape(courses@[k as int]));
            if self.course_is_for_concept(nid, courses[k].course.id) {
                return true;
            }
            k += 1;
        }
        false
    }

    /// The names of the representations, in the order of the store.
    pub fn names_of_representations(&self) -> (out: Vec<String>)
        ensures
            names_are(out@, self.representation_names()),
    {
        let mut out: Vec<String> = Vec::new();
        let mut i: usize = 0;
        while i < self.representations.len()
            invariant
                i <= self.representations.len(),
                out@.len() == i,
                forall|j: int| 0 <= j < i ==> (#[trigger] out@[j])@
                    == self.representations@[j].name@,
            decreases self.representations.len() - i,
        {
            out.push(self.representations[i].name.clone());
            i += 1;
        }
        out
    }

    /// The choice of a representation for the thing that pages call `id`.
    pub fn representation_choice(&self, id: String) -> (r: AnyChoice)
        ensures
            r.class@ == "representation"@,
            r.id == id,
            r.field@ == "representation"@,
            names_are(r.choices@, self.representation_names()),
    {
        AnyChoice {
            class: "representation".to_owned(),
            id,
            field: "representation".to_owned(),
            choices: self.names_of_representations(),
        }
    }

    /// Adds a group for each activity that asks for the concept `id` and has
    /// none.
    pub fn extend_groups_with_askers(
        &self,
        groups: &mut Vec<ActivityGroup>,
        id: ConceptID,
        parentid: &str,
        relationship: &str,
    )
        requires
            self.linked(),
        ensures
            shapes(final(groups)@) == self.with_askers(
                shapes(old(groups)@),
                id,
                self.activities@.len() as int,
            ),
    {
        let mut i: usize = 0;
        while i < self.activities.len()
            invariant
                i <= self.activities.len(),
                self.linked(),
                shapes(groups@) == self.with_askers(shapes(old(groups)@), id, i as int),
            decreases self.activities.len() - i,
        {
            let a = &self.activities[i];
            assert(a.id.0 == i);
            if asks(a, id) {
                self.extend_groups_with_activity(groups, a.clone(), parentid, relationship);
            }
            i += 1;
        }
    }

    /// `v` is the concept `id` with its relationships filled in: what
    /// teaches it, what it asks for and what asks for it, its representations
    /// and its courses.
    pub open spec fn shows_concept(&self, id: ConceptID, v: ConceptView) -> bool {
        &&& v.id == id
        &&& v.name == self.concepts@[id.0 as int].name
        &&& v.figure == self.concepts@[id.0 as int].figure
        &&& v.long_description == self.concepts@[id.0 as int].long_description
        &&& same_concepts(v.all_concepts@, self.concepts@)
        &&& same_activities(v.all_activities@, self.activities@)
        &&& v.representation_choice.class@ == "representation"@
        &&& v.representation_choice.id@ == id.html_spec()
        &&& v.representation_choice.field@ == "representation"@
        &&& names_are(v.representation_choice.choices@, self.representation_names())
        &&& self.copies_of(
            v.activities@,
            self.teachers(plain(id), self.activities@.len() as int),
        )
        &&& course_shapes(v.prereq_courses@) == self.earlier_courses(
            id,
            self.courses@.len() as int,
        )
        &&& v.prereq_concepts@ == self.open_prereqs(
            id,
            self.concepts@[id.0 as int].prereq_concepts@.len() as int,
        )
        &&& shapes(v.prereq_groups@) == arranged(
            self.grouped(plains(v.prereq_concepts@), v.prereq_concepts@.len() as int),
        )
        &&& v.needed_for_concepts@ == self.dependents(id, self.concepts@.len() as int)
        &&& shapes(v.output_groups@) == self.with_askers(
            arranged(
                self.grouped(
                    plains(v.needed_for_concepts@),
                    v.needed_for_concepts@.len() as int,
                ),
            ),
            id,
            self.activities@.len() as int,
        )
        &&& exists|reps: Seq<usize>|
            ascending(reps) && (forall|r: usize|
                reps.contains(r) <==> self.concepts@[id.0 as int].representations@.contains_key(
                    r,
                )) && shapes(v.representations@) == #[trigger] arranged(
                self.grouped(in_representations(id, reps), reps.len() as int),
            )
        &&& self.courses_are(
            v.courses@,
            self.courses_teaching(plain(id), self.courses@.len() as int),
        )
    }

    /// The concept `id` with its relationships filled in: what teaches it, what
    /// it asks for and what asks for it, its representations and its courses.
    pub fn concept_view(&self, id: ConceptID) -> (v: ConceptView)
        requires
            self.linked(),
            id.0 < self.concepts@.len(),
        ensures
            self.shows_concept(id, v),
    {
        let c = &self.concepts[id.0];
        let parent = id.html();
        let me = ConceptRepresentationID { concept: id, representation: None };
        // its representations
        let keys = keys_of(&c.representations);
        let mut in_reps: Vec<ConceptRepresentationID> = Vec::new();
        let mut k: usize = 0;
        while k < keys.len()
            invariant
                k <= keys.len(),
                in_reps@.len() == k,
                forall|j: int|
                    0 <= j < k ==> in_reps@[j] == (ConceptRepresentationID {
                        concept: id,
                        representation: Some(RepresentationID(keys@[j])),
                    }),
            decreases keys.len() - k,
        {
            in_reps.push(
                ConceptRepresentationID {
                    concept: id,
                    representation: Some(RepresentationID(keys[k])),
                },
            );
            k += 1;
        }
        proof {
            assert(in_reps@ =~= in_representations(id, keys@));
            assert forall|i: int| 0 <= i < in_reps@.len() implies self.known(#[trigger] in_reps@[i]) by {
                assert(keys@.contains(keys@[i]));
            }
        }
        let representations = self.group_concepts(&in_reps, parent.as_str(), "with");
        // its courses
        let course_ids = self.courses_for_concept(id);
        proof {
            self.lemma_courses_teaching(me, self.courses@.len() as int);
        }
        let mut courses: Vec<Course> = Vec::new();
        let mut n: usize = 0;
        while n < course_ids.len()
            invariant
                n <= course_ids.len(),
                forall|k: int|
                    0 <= k < course_ids@.len() ==> (#[trigger] course_ids@[k]).0
                        < self.courses@.len(),
                self.courses_are(courses@, course_ids@.take(n as int)),
            decreases course_ids.len() - n,
        {
            courses.push(self.courses[course_ids[n].0].clone());
            n += 1;
        }
        assert(course_ids@.take(n as int) == course_ids@);
        // the courses before it, and what it asks for beyond them
        let prereq_courses = self.courses_before_concept(id);
        proof {
            self.lemma_earlier_courses(id, self.courses@.len() as int);
            assert forall|k: int| 0 <= k < prereq_courses@.len() implies (
            #[trigger] prereq_courses@[k]).course.id.0 < self.courses@.len() by {
                assert(course_shapes(prereq_courses@)[k] == course_shape(prereq_courses@[k]));
            }
        }
        let mut prereq_concepts: Vec<ConceptID> = Vec::new();
        let mut p: usize = 0;
        while p < c.prereq_concepts.len()
            invariant
                p <= c.prereq_concepts.len(),
                self.linked(),
                id.0 < self.concepts@.len(),
                *c == self.concepts@[id.0 as int],
                course_shapes(prereq_courses@) == self.earlier_courses(
                    id,
                    self.courses@.len() as int,
                ),
                forall|k: int|
                    0 <= k < prereq_courses@.len() ==> (#[trigger] prereq_courses@[k]).course.id.0
                        < self.courses@.len(),
                prereq_concepts@ == self.open_prereqs(id, p as int),
                forall|k: int|
                    0 <= k < prereq_concepts@.len() ==> (#[trigger] prereq_concepts@[k]).0
                        < self.concepts@.len(),
            decreases c.prereq_concepts.len() - p,
        {
            let x = c.prereq_concepts[p];
            assert(self.concepts@[id.0 as int].prereq_concepts@[p as int] == x);
            if !self.taught_by_one_of(x, &prereq_courses) {
                prereq_concepts.push(x);
            }
            p += 1;
        }
        let prereq_ids = as_plain(&prereq_concepts);
        let prereq_groups = self.group_concepts(&prereq_ids, parent.as_str(), "prereq");
        // what asks for it
        let needed_for_concepts = self.dependents_of(id);
        proof {
            self.lemma_dependents(id, self.concepts@.len() as int);
        }
        let needed_ids = as_plain(&needed_for_concepts);
        let mut output_groups = self.group_concepts(&needed_ids, parent.as_str(), "needed for");
        self.extend_groups_with_askers(&mut output_groups, id, parent.as_str(), "needed for");
        ConceptView {
            id,
            name: c.name.clone(),
            all_concepts: copy_concepts(&self.concepts),
            all_activities: copy_activities(&self.activities),
            representation_choice: self.representation_choice(id.html()),
            activities: self.taught_by(me),
            prereq_courses,
            prereq_concepts,
            prereq_groups,
            needed_for_concepts,
            output_groups,
            representations,
            courses,
            figure: c.figure.clone(),
            long_description: c.long_description.clone(),
        }
    }

    /// What asks for a concept are concepts of the store.
    pub proof fn lemma_dependents(&self, id: ConceptID, n: int)
        requires
            self.wf(),
            0 <= n <= self.concepts@.len(),
        ensures
            forall|k: int|
                0 <= k < self.dependents(id, n).len() ==> (#[trigger] self.dependents(id, n)[k]).0
                    < n,
        decreases n,
    {
        if n > 0 {
            self.lemma_dependents(id, n - 1);
            let e0 = self.dependents(id, n - 1);
            let e = self.dependents(id, n);
            assert forall|k: int| 0 <= k < e.len() implies (#[trigger] e[k]).0 < n by {
                if k < e0.len() {
                    assert(e[k] == e0[k]);
                }
            }
        }
    }
}

/// Some concept that `a` teaches is asked for by `b`.
pub open spec fn feeds(a: Activity, b: Activity) -> bool {
    exists|k: int|
        0 <= k < a.new_concepts@.len() && b.prereq_concepts@.contains(#[trigger] a.new_concepts@[k])
}

/// Whether some concept that `a` teaches is asked for by `b`.
pub fn leads_to(a: &Activity, b: &Activity) -> (r: bool)
    ensures
        r == feeds(*a, *b),
{
    let mut k: usize = 0;
    while k < a.new_concepts.len()
        invariant
            k <= a.new_concepts.len(),
            forall|j: int|
                0 <= j < k ==> !b.prereq_concepts@.contains(#[trigger] a.new_concepts@[j]),
        decreases a.new_concepts.len() - k,
    {
        if holds_concept(&b.prereq_concepts, a.new_concepts[k]) {
            return true;
        }
        k += 1;
    }
    false
}

/// The identifiers of the representations shown.
pub open spec fn representation_ids(shown: Seq<Child<Representation>>) -> Seq<RepresentationID> {
    Seq::new(shown.len(), |i: int| shown[i].child.id)
}

impl Data {
    /// The concepts that the course at `course` teaches, in order and each
    /// once.
    pub fn taught_set(&self, course: usize) -> (out: Vec<ConceptRepresentationID>)
        requires
            self.linked(),
            course < self.courses@.len(),
        ensures
            ids_ascending(out@),
            forall|id: ConceptRepresentationID|
                out@.contains(id) <==> self.course_teaches(id, course as int),
            forall|k: int| 0 <= k < out@.len() ==> self.known(#[trigger] out@[k]),
    {
        let acts = &self.courses[course].activities;
        let mut out: Vec<ConceptRepresentationID> = Vec::new();
        let mut i: usize = 0;
        while i < acts.len()
            invariant
                i <= acts.len(),
                self.linked(),
                course < self.courses@.len(),
                acts@ == self.courses@[course as int].activities@,
                ids_ascending(out@),
                forall|id: ConceptRepresentationID|
                    out@.contains(id) <==> exists|k: int|
                        0 <= k < i
                            && self.activities@[(#[trigger] acts@[k]).0 as int].new_concepts@.contains(
                            id,
                        ),
                forall|k: int| 0 <= k < out@.len() ==> self.known(#[trigger] out@[k]),
            decreases acts.len() - i,
        {
            let a = acts[i];
            assert(self.courses@[course as int].activities@[i as int] == a);
            let news = &self.activities[a.0].new_concepts;
            let ghost before = out@;
            let mut k: usize = 0;
            while k < news.len()
                invariant
                    k <= news.len(),
                    self.linked(),
                    a.0 < self.activities@.len(),
                    news@ == self.activities@[a.0 as int].new_concepts@,
                    ids_ascending(out@),
                    forall|id: ConceptRepresentationID|
                        out@.contains(id) <==> (before.contains(id) || news@.take(
                            k as int,
                        ).contains(id)),
                    forall|k: int| 0 <= k < out@.len() ==> self.known(#[trigger] out@[k]),
                decreases news.len() - k,
            {
                let ghost was = out@;
                assert(self.activities@[a.0 as int].new_concepts@[k as int] == news@[k as int]);
                insert_id(&mut out, news[k]);
                proof {
                    let done = news@.take(k as int);
                    let more = news@.take(k + 1);
                    assert(more.drop_last() == done);
                    assert forall|x: ConceptRepresentationID|
                        more.contains(x) <==> (done.contains(x) || x == news@[k as int]) by {
                        if more.contains(x) {
                            let h = choose|h: int| 0 <= h < more.len() && more[h] == x;
                            if h < k {
                                assert(done[h] == x);
                            }
                        }
                        if done.contains(x) {
                            let h = choose|h: int| 0 <= h < done.len() && done[h] == x;
                            assert(more[h] == x);
                        }
                        if x == news@[k as int] {
                            assert(more[k as int] == x);
                        }
                    }
                    assert forall|j: int| 0 <= j < out@.len() implies self.known(
                        #[trigger] out@[j],
                    ) by {
                        assert(out@.contains(out@[j]));
                        if was.contains(out@[j]) {
                            let h = choose|h: int| 0 <= h < was.len() && was[h] == out@[j];
                            assert(self.known(was[h]));
                        }
                    }
                    assert forall|x: ConceptRepresentationID|
                        out@.contains(x) <==> (before.contains(x) || more.contains(x)) by {
                        assert(was.contains(x) <==> (before.contains(x) || done.contains(x)));
                        assert(out@.contains(x) <==> (was.contains(x) || x == news@[k as int]));
                    }
                }
                k += 1;
            }
            proof {
                assert(news@.take(k as int) == news@);
                assert forall|id: ConceptRepresentationID|
                    out@.contains(id) <==> exists|k: int|
                        0 <= k < i + 1
                            && self.activities@[(#[trigger] acts@[k]).0 as int].new_concepts@.contains(
                            id,
                        ) by {
                    assert(out@.contains(id) <==> (before.contains(id) || news@.contains(id)));
                    if out@.contains(id) {
                        if before.contains(id) {
                            let h = choose|h: int|
                                0 <= h < i && self.activities@[(
                                #[trigger] acts@[h]).0 as int].new_concepts@.contains(id);
                            assert(0 <= h < i + 1);
                        } else {
                            assert(news@.contains(id));
                            assert(acts@[i as int] == a);
                            assert(self.activities@[acts@[i as int].0 as int].new_concepts@.contains(
                                id,
                            ));
                        }
                    }
                    if exists|k: int|
                        0 <= k < i + 1
                            && self.activities@[(#[trigger] acts@[k]).0 as int].new_concepts@.contains(
                            id,
                        ) {
                        let h = choose|h: int|
                            0 <= h < i + 1 && self.activities@[(
                            #[trigger] acts@[h]).0 as int].new_concepts@.contains(id);
                        if h < i {
                            assert(before.contains(id));
                        } else {
                            assert(acts@[h] == a);
                            assert(news@.contains(id));
                        }
                    }
                }
            }
            i += 1;
        }
        out
    }

    /// The course at `course` comes before the activity `id`: it does not
    /// hold the activity, and teaches something that the activity asks for.
    pub open spec fn comes_before_activity(&self, course: int, id: ActivityID) -> bool {
        &&& !self.courses@[course].activities@.contains(id)
        &&& exists|c: ConceptRepresentationID|
            #![trigger self.course_teaches(c, course)]
            self.course_teaches(c, course)
                && self.activities@[id.0 as int].prereq_concepts@.contains(
                c,
            )
    }

    /// `out` are the courses that come before the activity `id`, in the order
    /// of the store, each with what it teaches of what the activity asks for,
    /// in order.
    pub open spec fn lists_courses_before_activity(
        &self,
        out: Seq<PrereqCourse>,
        id: ActivityID,
    ) -> bool {
        &&& forall|k: int|
            0 <= k < out.len() ==> {
                let p = #[trigger] out[k];
                &&& p.course.id.0 < self.courses@.len()
                &&& p.course.same(&self.courses@[p.course.id.0 as int])
                &&& self.comes_before_activity(p.course.id.0 as int, id)
                &&& ids_ascending(ids_of(p.concepts@))
                &&& forall|c: ConceptRepresentationID|
                    ids_of(p.concepts@).contains(c) <==> self.course_teaches(
                        c,
                        p.course.id.0 as int,
                    ) && self.activities@[id.0 as int].prereq_concepts@.contains(c)
            }
        &&& forall|a: int, b: int|
            0 <= a < b < out.len() ==> out[a].course.id.0 < out[b].course.id.0
        &&& forall|i: int|
            0 <= i < self.courses@.len() && self.comes_before_activity(i, id) ==> exists|k: int|
                0 <= k < out.len() && (#[trigger] out[k]).course.id.0 == i
    }

    /// The courses that come before the activity `id`, in the order of the
    /// store, each with what it teaches of what the activity asks for, in
    /// order.
    pub fn courses_before_activity(&self, id: ActivityID) -> (out: Vec<PrereqCourse>)
        requires
            self.linked(),
            id.0 < self.activities@.len(),
        ensures
            self.lists_courses_before_activity(out@, id),
    {
        let a = &self.activities[id.0];
        let parent = id.html();
        let mut out: Vec<PrereqCourse> = Vec::new();
        let mut i: usize = 0;
        while i < self.courses.len()
            invariant
                i <= self.courses.len(),
                self.linked(),
                id.0 < self.activities@.len(),
                *a == self.activities@[id.0 as int],
                forall|k: int|
                    0 <= k < out@.len() ==> {
                        let p = #[trigger] out@[k];
                        &&& p.course.id.0 < i
                        &&& p.course.same(&self.courses@[p.course.id.0 as int])
                        &&& self.comes_before_activity(p.course.id.0 as int, id)
                        &&& ids_ascending(ids_of(p.concepts@))
                        &&& forall|c: ConceptRepresentationID|
                            ids_of(p.concepts@).contains(c) <==> self.course_teaches(
                                c,
                                p.course.id.0 as int,
                            ) && self.activities@[id.0 as int].prereq_concepts@.contains(c)
                    },
                forall|x: int, y: int|
                    0 <= x < y < out@.len() ==> out@[x].course.id.0 < out@[y].course.id.0,
                forall|j: int|
                    0 <= j < i && self.comes_before_activity(j, id) ==> exists|k: int|
                        0 <= k < out@.len() && (#[trigger] out@[k]).course.id.0 == j,
            decreases self.courses.len() - i,
        {
            let course = &self.courses[i];
            assert(course.id.0 == i);
            let ghost before = out@;
            if !holds_activity(&course.activities, a.id) {
                assert(a.id.0 == id.0);
                let taught = self.taught_set(i);
                let mut wanted: Vec<ConceptRepresentationID> = Vec::new();
                let mut k: usize = 0;
                while k < taught.len()
                    invariant
                        k <= taught.len(),
                        ids_ascending(taught@),
                        forall|j: int| 0 <= j < taught@.len() ==> self.known(#[trigger] taught@[j]),
                        forall|j: int| 0 <= j < wanted@.len() ==> self.known(#[trigger] wanted@[j]),
                        ids_ascending(wanted@),
                        forall|j: int|
                            0 <= j < wanted@.len() ==> exists|h: int|
                                0 <= h < k && taught@[h] == #[trigger] wanted@[j],
                        forall|c: ConceptRepresentationID|
                            wanted@.contains(c) <==> taught@.take(k as int).contains(c)
                                && a.prereq_concepts@.contains(c),
                    decreases taught.len() - k,
                {
                    let c = taught[k];
                    let ghost was = wanted@;
                    proof {
                        let done = taught@.take(k as int);
                        let more = taught@.take(k + 1);
                        assert(more.drop_last() == done);
                        assert forall|x: ConceptRepresentationID|
                            more.contains(x) <==> (done.contains(x) || x == c) by {
                            if more.contains(x) {
                                let h = choose|h: int| 0 <= h < more.len() && more[h] == x;
                                if h < k {
                                    assert(done[h] == x);
                                }
                            }
                            if done.contains(x) {
                                let h = choose|h: int| 0 <= h < done.len() && done[h] == x;
                                assert(more[h] == x);
                            }
                            if x == c {
                                assert(more[k as int] == x);
                            }
                        }
                    }
                    if holds_concept(&a.prereq_concepts, c) {
                        wanted.push(c);
                        proof {
                            assert forall|x: int, y: int|
                                0 <= x < y < wanted@.len() implies id_before(
                                wanted@[x],
                                wanted@[y],
                            ) by {
                                if y == wanted@.len() - 1 {
                                    let h = choose|h: int| 0 <= h < k && taught@[h] == was[x];
                                    assert(id_before(taught@[h], taught@[k as int]));
                                } else {
                                    assert(was[x] == wanted@[x] && was[y] == wanted@[y]);
                                }
                            }
                            assert forall|x: ConceptRepresentationID|
                                wanted@.contains(x) <==> taught@.take(k + 1).contains(x)
                                    && a.prereq_concepts@.contains(x) by {
                                if wanted@.contains(x) {
                                    let h = choose|h: int| 0 <= h < wanted@.len() && wanted@[h]
                                        == x;
                                    if h < was.len() {
                                        assert(was[h] == x);
                                        assert(was.contains(x));
                                    }
                                }
                                if was.contains(x) {
                                    let h = choose|h: int| 0 <= h < was.len() && was[h] == x;
                                    assert(wanted@[h] == x);
                                }
                                if x == c {
                                    assert(wanted@[wanted@.len() - 1] == x);
                                }
                            }
                        }
                    }
                    k += 1;
                }
                assert(taught@.take(k as int) == taught@);
                if wanted.len() > 0 {
                    let concepts = self.views_of(&wanted, parent.as_str(), "prereq");
                    out.push(PrereqCourse { course: course.clone(), concepts });
                    proof {
                        assert(wanted@.contains(wanted@[0]));
                        assert(self.course_teaches(wanted@[0], i as int));
                        assert(self.comes_before_activity(i as int, id));
                        assert forall|x: int, y: int| 0 <= x < y < out@.len() implies out@[x].course.id.0
                            < out@[y].course.id.0 by {
                            if y < before.len() {
                                assert(out@[x] == before[x] && out@[y] == before[y]);
                            } else {
                                assert(out@[x] == before[x]);
                            }
                        }
                    }
                } else {
                    proof {
                        if self.comes_before_activity(i as int, id) {
                            let c = choose|c: ConceptRepresentationID|
                                #![trigger self.course_teaches(c, i as int)]
                                self.course_teaches(c, i as int)
                                    && self.activities@[id.0 as int].prereq_concepts@.contains(c);
                            assert(taught@.contains(c));
                            assert(wanted@.contains(c));
                            let h = choose|h: int| 0 <= h < wanted@.len() && wanted@[h] == c;
                            assert(false);
                        }
                    }
                }
            }
            proof {
                assert forall|j: int|
                    0 <= j < i + 1 && self.comes_before_activity(j, id) implies exists|k: int|
                    0 <= k < out@.len() && (#[trigger] out@[k]).course.id.0 == j by {
                    if j < i {
                        let k = choose|k: int|
                            0 <= k < before.len() && (#[trigger] before[k]).course.id.0 == j;
                        assert(out@[k] == before[k]);
                    } else {
                        assert(out@[out@.len() - 1].course.id.0 == j);
                    }
                }
            }
            i += 1;
        }
        out
    }
}

impl Data {
    /// Some course that holds the activity `id` teaches `c`.
    pub open spec fn taught_beside(&self, c: ConceptRepresentationID, id: ActivityID) -> bool {
        exists|i: int|
            0 <= i < self.courses@.len() && (#[trigger] self.courses@[i]).activities@.contains(id)
                && self.course_teaches(c, i)
    }

    /// Among the first `n` of what the activity `id` asks for: what a course
    /// that holds the activity teaches.
    pub open spec fn prereqs_beside(&self, id: ActivityID, n: int) -> Seq<ConceptRepresentationID>
        decreases n,
    {
        if n <= 0 {
            Seq::empty()
        } else {
            let c = self.activities@[id.0 as int].prereq_concepts@[n - 1];
            if self.taught_beside(c, id) {
                self.prereqs_beside(id, n - 1).push(c)
            } else {
                self.prereqs_beside(id, n - 1)
            }
        }
    }

    /// The groups with one more for each of the first `n` activities that
    /// asks for something that the activity `id` teaches and has none.
    pub open spec fn with_followers(&self, groups: Seq<GroupShape>, id: ActivityID, n: int) -> Seq<
        GroupShape,
    >
        decreases n,
    {
        if n <= 0 {
            groups
        } else if feeds(self.activities@[id.0 as int], self.activities@[n - 1]) {
            self.with_activity(self.with_followers(groups, id, n - 1), self.activities@[n - 1].id)
        } else {
            self.with_followers(groups, id, n - 1)
        }
    }

    /// Among the first `n` courses: the places of those that hold the
    /// activity `id`.
    pub open spec fn courses_holding(&self, id: ActivityID, n: int) -> Seq<int>
        decreases n,
    {
        if n <= 0 {
            Seq::empty()
        } else if self.courses@[n - 1].activities@.contains(id) {
            self.courses_holding(id, n - 1).push(n - 1)
        } else {
            self.courses_holding(id, n - 1)
        }
    }

    /// `copies` are the courses at `places`, in that order.
    pub open spec fn copies_of_courses(&self, copies: Seq<Course>, places: Seq<int>) -> bool {
        &&& copies.len() == places.len()
        &&& forall|k: int|
            0 <= k < copies.len() ==> (#[trigger] copies[k]).same(&self.courses@[places[k]])
    }

    /// Whether some course that holds the activity `id` teaches `c`.
    pub fn is_taught_beside(&self, c: ConceptRepresentationID, id: ActivityID) -> (b: bool)
        requires
            self.linked(),
        ensures
            b == self.taught_beside(c, id),
    {
        let mut i: usize = 0;
        while i < self.courses.len()
            invariant
                i <= self.courses.len(),
                self.linked(),
                forall|j: int|
                    0 <= j < i ==> !((#[trigger] self.courses@[j]).activities@.contains(id)
                        && self.course_teaches(c, j)),
            decreases self.courses.len() - i,
        {
            let course = &self.courses[i];
            assert(course.id.0 == i);
            if holds_activity(&course.activities, id) && self.course_is_for_concept(c, course.id) {
                return true;
            }
            i += 1;
        }
        false
    }

    /// The courses that hold the activity `id`.
    pub fn courses_of_activity(&self, id: ActivityID) -> (out: Vec<Course>)
        ensures
            self.copies_of_courses(out@, self.courses_holding(id, self.courses@.len() as int)),
    {
        let mut out: Vec<Course> = Vec::new();
        let mut i: usize = 0;
        while i < self.courses.len()
            invariant
                i <= self.courses.len(),
                self.copies_of_courses(out@, self.courses_holding(id, i as int)),
            decreases self.courses.len() - i,
        {
            if holds_activity(&self.courses[i].activities, id) {
                out.push(self.courses[i].clone());
            }
            i += 1;
        }
        out
    }

    /// The activity `id` with its relationships filled in: what it teaches
    /// and what it asks for, its representations and its courses.
    pub fn activity_view(&self, id: ActivityID) -> (v: ActivityView)
        requires
            self.linked(),
            id.0 < self.activities@.len(),
        ensures
            v.id == id,
            v.name == self.activities@[id.0 as int].name,
            v.figure == self.activities@[id.0 as int].figure,
            v.long_description == self.activities@[id.0 as int].long_description,
            v.external_url == self.activities@[id.0 as int].external_url,
            v.choices.id@ == id.html_spec(),
            v.choices.field@ == "???"@,
            texts_ascending(v.choices.choices@),
            forall|name: Seq<char>| #[trigger]
                has_text(v.choices.choices@, name) <==> self.is_name(
                    name,
                    self.concepts@.len() as int,
                ),
            v.representation_choice.class@ == "representation"@,
            v.representation_choice.id@ == id.html_spec(),
            v.representation_choice.field@ == "representation"@,
            names_are(v.representation_choice.choices@, self.representation_names()),
            self.lists_courses_before_activity(v.prereq_courses@, id),
            shapes(v.prereq_groups@) == arranged(
                self.grouped(
                    self.prereqs_beside(
                        id,
                        self.activities@[id.0 as int].prereq_concepts@.len() as int,
                    ),
                    self.prereqs_beside(
                        id,
                        self.activities@[id.0 as int].prereq_concepts@.len() as int,
                    ).len() as int,
                ),
            ),
            ids_of(v.new_concepts@) == self.activities@[id.0 as int].new_concepts@,
            shapes(v.output_groups@) == self.with_followers(
                arranged(
                    self.grouped(
                        self.activities@[id.0 as int].new_concepts@,
                        self.activities@[id.0 as int].new_concepts@.len() as int,
                    ),
                ),
                id,
                self.activities@.len() as int,
            ),
            representation_ids(v.representations@)
                == self.activities@[id.0 as int].representations@,
            self.copies_of_courses(
                v.courses@,
                self.courses_holding(id, self.courses@.len() as int),
            ),
    {
        let a = &self.activities[id.0];
        let parent = id.html();
        // what it asks for that a course of its own teaches
        let mut beside: Vec<ConceptRepresentationID> = Vec::new();
        let mut p: usize = 0;
        while p < a.prereq_concepts.len()
            invariant
                p <= a.prereq_concepts.len(),
                self.linked(),
                id.0 < self.activities@.len(),
                *a == self.activities@[id.0 as int],
                beside@ == self.prereqs_beside(id, p as int),
                forall|k: int| 0 <= k < beside@.len() ==> self.known(#[trigger] beside@[k]),
            decreases a.prereq_concepts.len() - p,
        {
            let c = a.prereq_concepts[p];
            assert(self.activities@[id.0 as int].prereq_concepts@[p as int] == c);
            if self.is_taught_beside(c, id) {
                beside.push(c);
            }
            p += 1;
        }
        let prereq_groups = self.group_concepts(&beside, parent.as_str(), "prereq");
        // what it teaches
        assert forall|k: int| 0 <= k < a.new_concepts@.len() implies self.known(
            #[trigger] a.new_concepts@[k],
        ) by {
            assert(self.activities@[id.0 as int].new_concepts@[k] == a.new_concepts@[k]);
        }
        let new_concepts = self.views_of(&a.new_concepts, parent.as_str(), "new");
        let mut output_groups = self.group_concepts(&a.new_concepts, parent.as_str(), "depends on");
        let ghost first = shapes(output_groups@);
        let mut i: usize = 0;
        while i < self.activities.len()
            invariant
                i <= self.activities.len(),
                self.linked(),
                id.0 < self.activities@.len(),
                *a == self.activities@[id.0 as int],
                shapes(output_groups@) == self.with_followers(first, id, i as int),
            decreases self.activities.len() - i,
        {
            let other = &self.activities[i];
            assert(other.id.0 == i);
            if leads_to(a, other) {
                self.extend_groups_with_activity(
                    &mut output_groups,
                    other.clone(),
                    parent.as_str(),
                    "depends on",
                );
            }
            i += 1;
        }
        // its representations
        let mut representations: Vec<Child<Representation>> = Vec::new();
        let mut r: usize = 0;
        while r < a.representations.len()
            invariant
                r <= a.representations.len(),
                self.linked(),
                id.0 < self.activities@.len(),
                *a == self.activities@[id.0 as int],
                representations@.len() == r,
                forall|k: int|
                    0 <= k < r ==> (#[trigger] representations@[k]).child.id
                        == a.representations@[k],
            decreases a.representations.len() - r,
        {
            let rid = a.representations[r];
            assert(self.activities@[id.0 as int].representations@[r as int] == rid);
            representations.push(
                Child::remove(id.html(), "uses", self.representations[rid.0].clone()),
            );
            r += 1;
        }
        assert(representation_ids(representations@) =~= a.representations@);
        ActivityView {
            id,
            name: a.name.clone(),
            choices: self.all_concept_representations(id.html(), "???"),
            representation_choice: self.representation_choice(id.html()),
            prereq_courses: self.courses_before_activity(id),
            prereq_groups,
            new_concepts,
            output_groups,
            representations,
            courses: self.courses_of_activity(id),
            figure: a.figure.clone(),
            long_description: a.long_description.clone(),
            external_url: a.external_url.clone(),
        }
    }
}

impl Data {
    /// Some activity that uses the representation `id` teaches `c`.
    pub open spec fn taught_with(&self, c: ConceptRepresentationID, id: RepresentationID) -> bool {
        exists|i: int|
            0 <= i < self.activities@.len()
                && (#[trigger] self.activities@[i]).representations@.contains(
                id,
            ) && self.activities@[i].new_concepts@.contains(c)
    }

    /// Among the first `n` concepts: those that have the representation
    /// `id`, each in that representation; those that an activity with the
    /// representation teaches so if `taught`, the others if not.
    pub open spec fn concepts_with(&self, id: RepresentationID, taught: bool, n: int) -> Seq<
        ConceptRepresentationID,
    >
        decreases n,
    {
        if n <= 0 {
            Seq::empty()
        } else {
            let c = ConceptRepresentationID {
                concept: self.concepts@[n - 1].id,
                representation: Some(id),
            };
            if self.concepts@[n - 1].representations@.contains_key(id.0) && self.taught_with(c, id)
                == taught {
                self.concepts_with(id, taught, n - 1).push(c)
            } else {
                self.concepts_with(id, taught, n - 1)
            }
        }
    }

    /// The groups with one more for each of the first `n` activities that
    /// uses the representation `id` and has none.
    pub open spec fn with_users(&self, groups: Seq<GroupShape>, id: RepresentationID, n: int) -> Seq<
        GroupShape,
    >
        decreases n,
    {
        if n <= 0 {
            groups
        } else if self.activities@[n - 1].representations@.contains(id) {
            self.with_activity(self.with_users(groups, id, n - 1), self.activities@[n - 1].id)
        } else {
            self.with_users(groups, id, n - 1)
        }
    }

    /// Whether some activity that uses the representation `id` teaches `c`.
    pub fn is_taught_with(&self, c: ConceptRepresentationID, id: RepresentationID) -> (b: bool)
        ensures
            b == self.taught_with(c, id),
    {
        let mut i: usize = 0;
        while i < self.activities.len()
            invariant
                i <= self.activities.len(),
                forall|j: int|
                    0 <= j < i ==> !((#[trigger] self.activities@[j]).representations@.contains(id)
                        && self.activities@[j].new_concepts@.contains(c)),
            decreases self.activities.len() - i,
        {
            let a = &self.activities[i];
            if holds_representation(&a.representations, id) && holds_concept(&a.new_concepts, c) {
                return true;
            }
            i += 1;
        }
        false
    }

    /// The concepts that have the representation `id`: see `concepts_with`.
    pub fn concepts_in(&self, id: RepresentationID, taught: bool) -> (out: Vec<
        ConceptRepresentationID,
    >)
        requires
            self.linked(),
            id.0 < self.representations@.len(),
        ensures
            out@ == self.concepts_with(id, taught, self.concepts@.len() as int),
            forall|k: int| 0 <= k < out@.len() ==> self.known(#[trigger] out@[k]),
    {
        let mut out: Vec<ConceptRepresentationID> = Vec::new();
        let mut i: usize = 0;
        while i < self.concepts.len()
            invariant
                i <= self.concepts.len(),
                self.linked(),
                id.0 < self.representations@.len(),
                out@ == self.concepts_with(id, taught, i as int),
                forall|k: int| 0 <= k < out@.len() ==> self.known(#[trigger] out@[k]),
            decreases self.concepts.len() - i,
        {
            let c = &self.concepts[i];
            assert(c.id.0 == i);
            let cid = ConceptRepresentationID { concept: c.id, representation: Some(id) };
            if c.representations.contains_key(&id.0) && self.is_taught_with(cid, id) == taught {
                out.push(cid);
            }
            i += 1;
        }
        out
    }

    /// The representation `id` with its relationships filled in: the
    /// concepts that have it, and the activities that use it.
    pub fn representation_view(&self, id: RepresentationID) -> (v: RepresentationView)
        requires
            self.linked(),
            id.0 < self.representations@.len(),
        ensures
            v.id == id,
            v.name == self.representations@[id.0 as int].name,
            v.description == self.representations@[id.0 as int].description,
            v.icon == self.representations@[id.0 as int].icon,
            ids_of(v.other_concepts@) == self.concepts_with(id, false, self.concepts@.len() as int),
            shapes(v.groups@) == self.with_users(
                arranged(
                    self.grouped(
                        self.concepts_with(id, true, self.concepts@.len() as int),
                        self.concepts_with(id, true, self.concepts@.len() as int).len() as int,
                    ),
                ),
                id,
                self.activities@.len() as int,
            ),
    {
        let r = self.representations[id.0].clone();
        let parent = id.html();
        let others = self.concepts_in(id, false);
        let other_concepts = self.views_of(&others, parent.as_str(), "");
        let taught = self.concepts_in(id, true);
        let mut groups = self.group_concepts(&taught, parent.as_str(), "used by");
        let ghost first = shapes(groups@);
        let mut i: usize = 0;
        while i < self.activities.len()
            invariant
                i <= self.activities.len(),
                self.linked(),
                shapes(groups@) == self.with_users(first, id, i as int),
            decreases self.activities.len() - i,
        {
            let a = &self.activities[i];
            assert(a.id.0 == i);
            if holds_representation(&a.representations, id) {
                self.extend_groups_with_activity(&mut groups, a.clone(), parent.as_str(), "used by");
            }
            i += 1;
        }
        RepresentationView {
            id,
            name: r.name,
            description: r.description,
            icon: r.icon,
            other_concepts,
            groups,
        }
    }

    /// Among the first `n` activities: the places of those that the course at
    /// `course` does not hold.
    pub open spec fn activities_outside(&self, course: int, n: int) -> Seq<int>
        decreases n,
    {
        if n <= 0 {
            Seq::empty()
        } else if !self.courses@[course].activities@.contains(self.activities@[n - 1].id) {
            self.activities_outside(course, n - 1).push(n - 1)
        } else {
            self.activities_outside(course, n - 1)
        }
    }

    /// The groups are those of the activities of the course at `course`, one
    /// for one: each shows the activity and what it teaches.
    pub open spec fn groups_of_course(&self, groups: Seq<ProgressionGroup>, course: int) -> bool {
        &&& groups.len() == self.courses@[course].activities@.len()
        &&& forall|k: int|
            0 <= k < groups.len() ==> {
                let a = self.courses@[course].activities@[k];
                &&& (#[trigger] groups[k]).activity.child.id == a
                &&& groups[k].activity.parentid@ == self.courses@[course].id.html_spec()
                &&& groups[k].activity.verb@ == "Remove"@
                &&& groups[k].activity.relationship@ == "teaches"@
                &&& ids_of(groups[k].concepts@) == self.activities@[a.0 as int].new_concepts@
            }
    }

    /// The course `id` as a sequence of its activities, each with what it
    /// teaches, and the choice of a further activity.
    pub fn course_sequence(&self, id: CourseID) -> (cs: CourseSequence)
        requires
            self.linked(),
            id.0 < self.courses@.len(),
        ensures
            cs.course.same(&self.courses@[id.0 as int]),
            cs.prereq_courses@.len() == 0,
            self.groups_of_course(cs.groups@, id.0 as int),
            cs.new_activity.id@ == id.html_spec(),
            cs.new_activity.field@ == "activity"@,
            self.copies_of(
                cs.new_activity.choices@,
                self.activities_outside(id.0 as int, self.activities@.len() as int),
            ),
    {
        let course = self.courses[id.0].clone();
        assert(self.courses@[id.0 as int].id == id);
        let mut groups: Vec<ProgressionGroup> = Vec::new();
        let mut k: usize = 0;
        while k < course.activities.len()
            invariant
                k <= course.activities.len(),
                self.linked(),
                id.0 < self.courses@.len(),
                self.courses@[id.0 as int].id == id,
                course.activities@ == self.courses@[id.0 as int].activities@,
                groups@.len() == k,
                forall|j: int|
                    0 <= j < k ==> {
                        let a = self.courses@[id.0 as int].activities@[j];
                        &&& (#[trigger] groups@[j]).activity.child.id == a
                        &&& groups@[j].activity.parentid@ == id.html_spec()
                        &&& groups@[j].activity.verb@ == "Remove"@
                        &&& groups@[j].activity.relationship@ == "teaches"@
                        &&& ids_of(groups@[j].concepts@)
                            == self.activities@[a.0 as int].new_concepts@
                    },
            decreases course.activities.len() - k,
        {
            let aid = course.activities[k];
            assert(self.courses@[id.0 as int].activities@[k as int] == aid);
            let a = self.activity_view(aid);
            let mut ids: Vec<ConceptRepresentationID> = Vec::new();
            let mut h: usize = 0;
            while h < a.new_concepts.len()
                invariant
                    h <= a.new_concepts.len(),
                    ids@.len() == h,
                    forall|j: int| 0 <= j < h ==> ids@[j]
                        == (#[trigger] a.new_concepts@[j]).child.id,
                decreases a.new_concepts.len() - h,
            {
                ids.push(a.new_concepts[h].child.id);
                h += 1;
            }
            proof {
                assert(ids@ =~= ids_of(a.new_concepts@));
                assert forall|j: int| 0 <= j < ids@.len() implies self.known(#[trigger] ids@[j]) by {
                    assert(self.activities@[aid.0 as int].new_concepts@[j] == ids@[j]);
                }
            }
            let concepts = self.views_of(&ids, aid.html().as_str(), "new");
            groups.push(
                ProgressionGroup { concepts, activity: Child::remove(id.html(), "teaches", a) },
            );
            k += 1;
        }
        let mut choices: Vec<Activity> = Vec::new();
        let mut i: usize = 0;
        while i < self.activities.len()
            invariant
                i <= self.activities.len(),
                id.0 < self.courses@.len(),
                course.activities@ == self.courses@[id.0 as int].activities@,
                self.copies_of(choices@, self.activities_outside(id.0 as int, i as int)),
            decreases self.activities.len() - i,
        {
            if !holds_activity(&course.activities, self.activities[i].id) {
                choices.push(self.activities[i].clone());
            }
            i += 1;
        }
        let new_activity = ActivityChoice { id: id.html(), field: "activity".to_owned(), choices };
        CourseSequence { course, prereq_courses: Vec::new(), new_activity, groups }
    }
}

impl Data {
    /// Some activity of the course at `course` asks for `c`.
    pub open spec fn course_asks(&self, c: ConceptRepresentationID, course: int) -> bool {
        exists|k: int|
            0 <= k < self.courses@[course].activities@.len() && self.activities@[(
            #[trigger] self.courses@[course].activities@[k]).0 as int].prereq_concepts@.contains(c)
    }

    /// The course at `other` comes before the course at `course`: it is
    /// another course, and teaches something that the course asks for.
    pub open spec fn comes_before_course(&self, other: int, course: int) -> bool {
        &&& other != course
        &&& exists|c: ConceptRepresentationID|
            #![trigger self.course_teaches(c, other)]
            self.course_teaches(c, other) && self.course_asks(c, course)
    }

    /// `p` is a course that comes before the course `id`, with what it
    /// teaches of what the course asks for, in order.
    pub open spec fn is_course_before_course(&self, p: PrereqCourse, id: CourseID) -> bool {
        &&& p.course.id.0 < self.courses@.len()
        &&& p.course.same(&self.courses@[p.course.id.0 as int])
        &&& self.comes_before_course(p.course.id.0 as int, id.0 as int)
        &&& ids_ascending(ids_of(p.concepts@))
        &&& forall|c: ConceptRepresentationID|
            ids_of(p.concepts@).contains(c) <==> self.course_teaches(c, p.course.id.0 as int)
                && self.course_asks(c, id.0 as int)
    }

    /// `out` are the courses that come before the course `id`, in the order
    /// of the store, each with what it teaches of what the course asks for,
    /// in order.
    pub open spec fn lists_courses_before_course(&self, out: Seq<PrereqCourse>, id: CourseID) -> bool {
        &&& forall|k: int| 0 <= k < out.len() ==>
            self.is_course_before_course(#[trigger] out[k], id)
        &&& forall|a: int, b: int|
            0 <= a < b < out.len() ==> out[a].course.id.0 < out[b].course.id.0
        &&& forall|i: int|
            0 <= i < self.courses@.len() && self.comes_before_course(i, id.0 as int) ==> exists|
                k: int,
            | 0 <= k < out.len() && (#[trigger] out[k]).course.id.0 == i
    }

    /// What the activities of the course at `course` ask for, in order and
    /// each once.
    pub fn asked_set(&self, course: usize) -> (out: Vec<ConceptRepresentationID>)
        requires
            self.linked(),
            course < self.courses@.len(),
        ensures
            ids_ascending(out@),
            forall|id: ConceptRepresentationID|
                out@.contains(id) <==> self.course_asks(id, course as int),
            forall|k: int| 0 <= k < out@.len() ==> self.known(#[trigger] out@[k]),
    {
        let acts = &self.courses[course].activities;
        let mut out: Vec<ConceptRepresentationID> = Vec::new();
        let mut i: usize = 0;
        while i < acts.len()
            invariant
                i <= acts.len(),
                self.linked(),
                course < self.courses@.len(),
                acts@ == self.courses@[course as int].activities@,
                ids_ascending(out@),
                forall|id: ConceptRepresentationID|
                    out@.contains(id) <==> exists|k: int|
                        0 <= k < i
                            && self.activities@[(#[trigger] acts@[k]).0 as int].prereq_concepts@.contains(
                            id,
                        ),
                forall|k: int| 0 <= k < out@.len() ==> self.known(#[trigger] out@[k]),
            decreases acts.len() - i,
        {
            let a = acts[i];
            assert(self.courses@[course as int].activities@[i as int] == a);
            let asked = &self.activities[a.0].prereq_concepts;
            let ghost before = out@;
            let mut k: usize = 0;
            while k < asked.len()
                invariant
                    k <= asked.len(),
                    self.linked(),
                    a.0 < self.activities@.len(),
                    asked@ == self.activities@[a.0 as int].prereq_concepts@,
                    ids_ascending(out@),
                    forall|id: ConceptRepresentationID|
                        out@.contains(id) <==> (before.contains(id) || asked@.take(
                            k as int,
                        ).contains(id)),
                    forall|k: int| 0 <= k < out@.len() ==> self.known(#[trigger] out@[k]),
                decreases asked.len() - k,
            {
                let ghost was = out@;
                assert(self.activities@[a.0 as int].prereq_concepts@[k as int] == asked@[k as int]);
                insert_id(&mut out, asked[k]);
                proof {
                    let done = asked@.take(k as int);
                    let more = asked@.take(k + 1);
                    assert(more.drop_last() == done);
                    assert forall|x: ConceptRepresentationID|
                        more.contains(x) <==> (done.contains(x) || x == asked@[k as int]) by {
                        if more.contains(x) {
                            let h = choose|h: int| 0 <= h < more.len() && more[h] == x;
                            if h < k {
                                assert(done[h] == x);
                            }
                        }
                        if done.contains(x) {
                            let h = choose|h: int| 0 <= h < done.len() && done[h] == x;
                            assert(more[h] == x);
                        }
                        if x == asked@[k as int] {
                            assert(more[k as int] == x);
                        }
                    }
                    assert forall|j: int| 0 <= j < out@.len() implies self.known(
                        #[trigger] out@[j],
                    ) by {
                        assert(out@.contains(out@[j]));
                        if was.contains(out@[j]) {
                            let h = choose|h: int| 0 <= h < was.len() && was[h] == out@[j];
                            assert(self.known(was[h]));
                        }
                    }
                    assert forall|x: ConceptRepresentationID|
                        out@.contains(x) <==> (before.contains(x) || more.contains(x)) by {
                        assert(was.contains(x) <==> (before.contains(x) || done.contains(x)));
                        assert(out@.contains(x) <==> (was.contains(x) || x == asked@[k as int]));
                    }
                }
                k += 1;
            }
            proof {
                assert(asked@.take(k as int) == asked@);
                assert forall|id: ConceptRepresentationID|
                    out@.contains(id) <==> exists|k: int|
                        0 <= k < i + 1
                            && self.activities@[(#[trigger] acts@[k]).0 as int].prereq_concepts@.contains(
                            id,
                        ) by {
                    assert(out@.contains(id) <==> (before.contains(id) || asked@.contains(id)));
                    if out@.contains(id) {
                        if before.contains(id) {
                            let h = choose|h: int|
                                0 <= h < i && self.activities@[(
                                #[trigger] acts@[h]).0 as int].prereq_concepts@.contains(id);
                            assert(0 <= h < i + 1);
                        } else {
                            assert(asked@.contains(id));
                            assert(acts@[i as int] == a);
                            assert(self.activities@[acts@[i as int].0 as int].prereq_concepts@.contains(
                                id,
                            ));
                        }
                    }
                    if exists|k: int|
                        0 <= k < i + 1
                            && self.activities@[(#[trigger] acts@[k]).0 as int].prereq_concepts@.contains(
                            id,
                        ) {
                        let h = choose|h: int|
                            0 <= h < i + 1 && self.activities@[(
                            #[trigger] acts@[h]).0 as int].prereq_concepts@.contains(id);
                        if h < i {
                            assert(before.contains(id));
                        } else {
                            assert(acts@[h] == a);
                            assert(asked@.contains(id));
                        }
                    }
                }
            }
            i += 1;
        }
        out
    }

    /// Those of the ascending `ids` that the course `course` teaches.
    pub fn keep_taught(&self, ids: &Vec<ConceptRepresentationID>, course: CourseID) -> (out: Vec<
        ConceptRepresentationID,
    >)
        requires
            self.linked(),
            course.0 < self.courses@.len(),
            ids_ascending(ids@),
            forall|k: int| 0 <= k < ids@.len() ==> self.known(#[trigger] ids@[k]),
        ensures
            ids_ascending(out@),
            forall|c: ConceptRepresentationID|
                out@.contains(c) <==> ids@.contains(c) && self.course_teaches(c, course.0 as int),
            forall|k: int| 0 <= k < out@.len() ==> self.known(#[trigger] out@[k]),
    {
        let mut out: Vec<ConceptRepresentationID> = Vec::new();
        let mut k: usize = 0;
        while k < ids.len()
            invariant
                k <= ids.len(),
                self.linked(),
                course.0 < self.courses@.len(),
                ids_ascending(ids@),
                forall|j: int| 0 <= j < ids@.len() ==> self.known(#[trigger] ids@[j]),
                forall|j: int| 0 <= j < out@.len() ==> self.known(#[trigger] out@[j]),
                ids_ascending(out@),
                forall|j: int|
                    0 <= j < out@.len() ==> exists|h: int|
                        0 <= h < k && ids@[h] == #[trigger] out@[j],
                forall|c: ConceptRepresentationID|
                    out@.contains(c) <==> ids@.take(k as int).contains(c) && self.course_teaches(
                        c,
                        course.0 as int,
                    ),
            decreases ids.len() - k,
        {
            let c = ids[k];
            let ghost was = out@;
            proof {
                let done = ids@.take(k as int);
                let more = ids@.take(k + 1);
                assert(more.drop_last() == done);
                assert forall|x: ConceptRepresentationID|
                    more.contains(x) <==> (done.contains(x) || x == c) by {
                    if more.contains(x) {
                        let h = choose|h: int| 0 <= h < more.len() && more[h] == x;
                        if h < k {
                            assert(done[h] == x);
                        }
                    }
                    if done.contains(x) {
                        let h = choose|h: int| 0 <= h < done.len() && done[h] == x;
                        assert(more[h] == x);
                    }
                    if x == c {
                        assert(more[k as int] == x);
                    }
                }
            }
            if self.course_is_for_concept(c, course) {
                out.push(c);
                proof {
                    assert forall|x: int, y: int| 0 <= x < y < out@.len() implies id_before(
                        out@[x],
                        out@[y],
                    ) by {
                        if y == out@.len() - 1 {
                            let h = choose|h: int| 0 <= h < k && ids@[h] == was[x];
                            assert(id_before(ids@[h], ids@[k as int]));
                        } else {
                            assert(was[x] == out@[x] && was[y] == out@[y]);
                        }
                    }
                    assert forall|x: ConceptRepresentationID|
                        out@.contains(x) <==> ids@.take(k + 1).contains(x) && self.course_teaches(
                            x,
                            course.0 as int,
                        ) by {
                        if out@.contains(x) {
                            let h = choose|h: int| 0 <= h < out@.len() && out@[h] == x;
                            if h < was.len() {
                                assert(was[h] == x);
                                assert(was.contains(x));
                            }
                        }
                        if was.contains(x) {
                            let h = choose|h: int| 0 <= h < was.len() && was[h] == x;
                            assert(out@[h] == x);
                        }
                        if x == c {
                            assert(out@[out@.len() - 1] == x);
                        }
                    }
                }
            }
            k += 1;
        }
        assert(ids@.take(k as int) == ids@);
        out
    }

    /// The course `id` as a sequence of its activities, with the courses that
    /// come before it.
    pub fn course_view(&self, id: CourseID) -> (cs: CourseSequence)
        requires
            self.linked(),
            id.0 < self.courses@.len(),
        ensures
            cs.course.same(&self.courses@[id.0 as int]),
            self.groups_of_course(cs.groups@, id.0 as int),
            cs.new_activity.id@ == id.html_spec(),
            cs.new_activity.field@ == "activity"@,
            self.copies_of(
                cs.new_activity.choices@,
                self.activities_outside(id.0 as int, self.activities@.len() as int),
            ),
            self.lists_courses_before_course(cs.prereq_courses@, id),
    {
        let cs = self.course_sequence(id);
        let asked = self.asked_set(id.0);
        let parent = id.html();
        let mut out: Vec<PrereqCourse> = Vec::new();
        let mut i: usize = 0;
        while i < self.courses.len()
            invariant
                i <= self.courses.len(),
                self.linked(),
                id.0 < self.courses@.len(),
                ids_ascending(asked@),
                forall|c: ConceptRepresentationID|
                    asked@.contains(c) <==> self.course_asks(c, id.0 as int),
                forall|k: int| 0 <= k < asked@.len() ==> self.known(#[trigger] asked@[k]),
                forall|k: int|
                    0 <= k < out@.len() ==> (#[trigger] out@[k]).course.id.0 < i
                        && self.is_course_before_course(out@[k], id),
                forall|x: int, y: int|
                    0 <= x < y < out@.len() ==> out@[x].course.id.0 < out@[y].course.id.0,
                forall|j: int|
                    0 <= j < i && self.comes_before_course(j, id.0 as int) ==> exists|k: int|
                        0 <= k < out@.len() && (#[trigger] out@[k]).course.id.0 == j,
            decreases self.courses.len() - i,
        {
            let course = &self.courses[i];
            assert(course.id.0 == i);
            let ghost before = out@;
            if course.id != id {
                let wanted = self.keep_taught(&asked, course.id);
                if wanted.len() > 0 {
                    let concepts = self.views_of(&wanted, parent.as_str(), "prereq");
                    out.push(PrereqCourse { course: course.clone(), concepts });
                    proof {
                        assert(wanted@.contains(wanted@[0]));
                        assert(self.course_teaches(wanted@[0], i as int));
                        assert(self.course_asks(wanted@[0], id.0 as int));
                        assert(i != id.0);
                        assert(self.comes_before_course(i as int, id.0 as int));
                        let last = out@[out@.len() - 1];
                        assert(ids_of(last.concepts@) == wanted@);
                        assert(last.course.id.0 == i);
                        assert forall|c: ConceptRepresentationID|
                            ids_of(last.concepts@).contains(c) <==> self.course_teaches(
                                c,
                                i as int,
                            ) && self.course_asks(c, id.0 as int) by {
                            assert(asked@.contains(c) <==> self.course_asks(c, id.0 as int));
                        }
                        assert(self.is_course_before_course(last, id));
                        assert forall|k: int| 0 <= k < before.len() implies #[trigger] out@[k]
                            == before[k] by {}
                        assert forall|x: int, y: int| 0 <= x < y < out@.len() implies out@[x].course.id.0
                            < out@[y].course.id.0 by {
                            if y < before.len() {
                                assert(out@[x] == before[x] && out@[y] == before[y]);
                            } else {
                                assert(out@[x] == before[x]);
                            }
                        }
                    }
                } else {
                    proof {
                        if self.comes_before_course(i as int, id.0 as int) {
                            let c = choose|c: ConceptRepresentationID|
                                #![trigger self.course_teaches(c, i as int)]
                                self.course_teaches(c, i as int) && self.course_asks(
                                    c,
                                    id.0 as int,
                                );
                            assert(asked@.contains(c));
                            assert(wanted@.contains(c));
                            let h = choose|h: int| 0 <= h < wanted@.len() && wanted@[h] == c;
                            assert(false);
                        }
                    }
                }
            }
            proof {
                assert forall|j: int|
                    0 <= j < i + 1 && self.comes_before_course(j, id.0 as int) implies exists|
                    k: int,
                | 0 <= k < out@.len() && (#[trigger] out@[k]).course.id.0 == j by {
                    if j < i {
                        let k = choose|k: int|
                            0 <= k < before.len() && (#[trigger] before[k]).course.id.0 == j;
                        assert(out@[k] == before[k]);
                    } else {
                        assert(out@[out@.len() - 1].course.id.0 == j);
                    }
                }
            }
            i += 1;
        }
        let CourseSequence { course, prereq_courses: _, new_activity, groups } = cs;
        CourseSequence { course, prereq_courses: out, new_activity, groups }
    }
}

impl Data {
    /// Among the first `n` courses: the places of those of more than one
    /// activity.
    pub open spec fn long_courses(&self, n: int) -> Seq<int>
        decreases n,
    {
        if n <= 0 {
            Seq::empty()
        } else if self.courses@[n - 1].activities@.len() > 1 {
            self.long_courses(n - 1).push(n - 1)
        } else {
            self.long_courses(n - 1)
        }
    }

    /// The places of the long courses are places of the store, in rising
    /// order.
    pub proof fn lemma_long_courses(&self, n: int)
        requires
            0 <= n <= self.courses@.len(),
        ensures
            forall|k: int|
                0 <= k < self.long_courses(n).len() ==> 0 <= (#[trigger] self.long_courses(n)[k])
                    < n,
        decreases n,
    {
        if n > 0 {
            self.lemma_long_courses(n - 1);
            let e0 = self.long_courses(n - 1);
            let e = self.long_courses(n);
            assert forall|k: int| 0 <= k < e.len() implies 0 <= (#[trigger] e[k]) < n by {
                if k < e0.len() {
                    assert(e[k] == e0[k]);
                }
            }
        }
    }

    /// The progression: the courses of more than one activity, each as a
    /// sequence of its activities, and before them the courses that stand
    /// before the first of these in the store, each with what it teaches.
    pub fn progression_view(&self) -> (v: ProgressionView)
        requires
            self.linked(),
            self.long_courses(self.courses@.len() as int).len() > 0,
        ensures
            v.courses@.len() == self.long_courses(self.courses@.len() as int).len(),
            forall|k: int|
                0 <= k < v.courses@.len() ==> {
                    let i = self.long_courses(self.courses@.len() as int)[k];
                    &&& (#[trigger] v.courses@[k]).course.same(&self.courses@[i])
                    &&& self.groups_of_course(v.courses@[k].groups@, i)
                },
            v.prereq_courses@.len() == self.long_courses(self.courses@.len() as int)[0],
            forall|k: int|
                0 <= k < v.prereq_courses@.len() ==> {
                    let p = #[trigger] v.prereq_courses@[k];
                    &&& p.course.same(&self.courses@[k])
                    &&& ids_ascending(ids_of(p.concepts@))
                    &&& forall|c: ConceptRepresentationID|
                        ids_of(p.concepts@).contains(c) <==> self.course_teaches(c, k)
                },
    {
        let mut courses: Vec<CourseSequence> = Vec::new();
        let mut first: usize = 0;
        let mut i: usize = 0;
        while i < self.courses.len()
            invariant
                i <= self.courses.len(),
                self.linked(),
                courses@.len() == self.long_courses(i as int).len(),
                forall|k: int|
                    0 <= k < courses@.len() ==> {
                        let j = self.long_courses(i as int)[k];
                        &&& (#[trigger] courses@[k]).course.same(&self.courses@[j])
                        &&& self.groups_of_course(courses@[k].groups@, j)
                    },
                courses@.len() > 0 ==> first == self.long_courses(i as int)[0],
            decreases self.courses.len() - i,
        {
            let ghost before = self.long_courses(i as int);
            if self.courses[i].activities.len() > 1 {
                assert(self.courses@[i as int].id.0 == i);
                if courses.len() == 0 {
                    first = i;
                }
                courses.push(self.course_sequence(CourseID(i)));
            }
            proof {
                let now = self.long_courses(i + 1);
                assert forall|k: int| 0 <= k < courses@.len() implies {
                    let j = now[k];
                    &&& (#[trigger] courses@[k]).course.same(&self.courses@[j])
                    &&& self.groups_of_course(courses@[k].groups@, j)
                } by {
                    if k < before.len() {
                        assert(now[k] == before[k]);
                    }
                }
                if before.len() > 0 {
                    assert(now[0] == before[0]);
                }
            }
            i += 1;
        }
        proof {
            self.lemma_long_courses(self.courses@.len() as int);
        }
        let mut prereq_courses: Vec<PrereqCourse> = Vec::new();
        let mut k: usize = 0;
        while k < first
            invariant
                k <= first < self.courses@.len(),
                self.linked(),
                prereq_courses@.len() == k,
                forall|j: int|
                    0 <= j < k ==> {
                        let p = #[trigger] prereq_courses@[j];
                        &&& p.course.same(&self.courses@[j])
                        &&& ids_ascending(ids_of(p.concepts@))
                        &&& forall|c: ConceptRepresentationID|
                            ids_of(p.concepts@).contains(c) <==> self.course_teaches(c, j)
                    },
            decreases first - k,
        {
            let course = &self.courses[k];
            let taught = self.taught_set(k);
            let concepts = self.views_of(&taught, course.id.html().as_str(), "");
            prereq_courses.push(PrereqCourse { course: course.clone(), concepts });
            k += 1;
        }
        ProgressionView { prereq_courses, courses }
    }
}

impl ConceptView {
    /// Among the first `n` of all concepts: the places of those that the
    /// concept neither asks for nor is asked for by.
    pub open spec fn unrelated(&self, n: int) -> Seq<int>
        decreases n,
    {
        if n <= 0 {
            Seq::empty()
        } else {
            let c = self.all_concepts@[n - 1];
            if !self.prereq_concepts@.contains(c.id) && !self.needed_for_concepts@.contains(c.id) {
                self.unrelated(n - 1).push(n - 1)
            } else {
                self.unrelated(n - 1)
            }
        }
    }

    /// `copies` are the concepts at `places` of all concepts, in that order.
    pub open spec fn copies_of(&self, copies: Seq<Concept>, places: Seq<int>) -> bool {
        &&& copies.len() == places.len()
        &&& forall|k: int|
            0 <= k < copies.len() ==> (#[trigger] copies[k]).same(&self.all_concepts@[places[k]])
    }

    /// Among the first `n` of all activities: the places of those that do
    /// not teach the concept.
    pub open spec fn not_teaching(&self, n: int) -> Seq<int>
        decreases n,
    {
        if n <= 0 {
            Seq::empty()
        } else if !self.all_activities@[n - 1].new_concepts@.contains(plain(self.id)) {
            self.not_teaching(n - 1).push(n - 1)
        } else {
            self.not_teaching(n - 1)
        }
    }

    /// `copies` are the activities at `places` of all activities, in that
    /// order.
    pub open spec fn copies_of_activities(&self, copies: Seq<Activity>, places: Seq<int>) -> bool {
        &&& copies.len() == places.len()
        &&& forall|k: int|
            0 <= k < copies.len() ==> (#[trigger] copies[k]).same(&self.all_activities@[places[k]])
    }

    /// The concepts that the concept might be needed for: those it has no
    /// relationship with yet.
    pub fn possibly_needed_for_concepts(&self) -> (ch: ConceptChoice)
        ensures
            ch.id@ == self.id.html_spec(),
            ch.field@ == "needed for"@,
            self.copies_of(ch.choices@, self.unrelated(self.all_concepts@.len() as int)),
    {
        ConceptChoice {
            id: self.id.html(),
            field: "needed for".to_owned(),
            choices: self.unrelated_concepts(),
        }
    }

    /// The concepts that the concept might ask for: those it has no
    /// relationship with yet.
    pub fn possibly_prereq_concepts(&self) -> (ch: ConceptChoice)
        ensures
            ch.id@ == self.id.html_spec(),
            ch.field@ == "prereq"@,
            self.copies_of(ch.choices@, self.unrelated(self.all_concepts@.len() as int)),
    {
        ConceptChoice {
            id: self.id.html(),
            field: "prereq".to_owned(),
            choices: self.unrelated_concepts(),
        }
    }

    fn unrelated_concepts(&self) -> (out: Vec<Concept>)
        ensures
            self.copies_of(out@, self.unrelated(self.all_concepts@.len() as int)),
    {
        let mut out: Vec<Concept> = Vec::new();
        let mut i: usize = 0;
        while i < self.all_concepts.len()
            invariant
                i <= self.all_concepts.len(),
                self.copies_of(out@, self.unrelated(i as int)),
            decreases self.all_concepts.len() - i,
        {
            let c = &self.all_concepts[i];
            if !holds_plain(&self.prereq_concepts, c.id) && !holds_plain(
                &self.needed_for_concepts,
                c.id,
            ) {
                out.push(c.clone());
            }
            i += 1;
        }
        out
    }

    /// The activities that might teach the concept: those that do not yet.
    pub fn possible_activities(&self) -> (ch: ActivityChoice)
        ensures
            ch.id@ == self.id.html_spec(),
            ch.field@ == "taught by"@,
            self.copies_of_activities(
                ch.choices@,
                self.not_teaching(self.all_activities@.len() as int),
            ),
    {
        let me = ConceptRepresentationID { concept: self.id, representation: None };
        let mut out: Vec<Activity> = Vec::new();
        let mut i: usize = 0;
        while i < self.all_activities.len()
            invariant
                i <= self.all_activities.len(),
                me == plain(self.id),
                self.copies_of_activities(out@, self.not_teaching(i as int)),
            decreases self.all_activities.len() - i,
        {
            let a = &self.all_activities[i];
            if !holds_concept(&a.new_concepts, me) {
                out.push(a.clone());
            }
            i += 1;
        }
        ActivityChoice { id: self.id.html(), field: "taught by".to_owned(), choices: out }
    }
}

} // verus!
