//! The store of concepts, activities, representations and courses, and the
//! views that pages are made from.

use crate::activity::{Activity, ActivityModel, ActivityView};
use crate::concept::{Concept, ConceptModel, ConceptRepresentationView};
use crate::ids::{ActivityID, ConceptID, CourseID, RepresentationID};
use crate::markdown::Markdown;
use crate::representation::{Icon, IconModel, Representation, RepresentationModel};
use vstd::std_specs::cmp::PartialEqSpecImpl;
use crate::text::{concat, parse_number, parsed, same_text, trim, trimmed};
use std::collections::BTreeMap;
use vstd::prelude::*;

verus! {

/// A change that an author asks for.
#[derive(Debug, Hash, Clone, PartialEq, Eq, PartialOrd, Ord)]
pub struct Change {
    pub id: String,
    pub field: String,
    pub content: String,
    pub html: String,
}

/// A course: its number, its name, and its activities in their order.
#[derive(Debug, PartialEq, Eq, PartialOrd, Ord)]
pub struct Course {
    pub id: CourseID,
    pub number: String,
    pub name: String,
    pub activities: Vec<ActivityID>,
}

impl Course {
    /// The two courses hold the same.
    pub open spec fn same(&self, other: &Course) -> bool {
        &&& self.id == other.id
        &&& self.number == other.number
        &&& self.name == other.name
        &&& self.activities@ == other.activities@
    }
}

impl Clone for Course {
    fn clone(&self) -> (r: Self)
        ensures
            r.same(self),
    {
        Course {
            id: self.id,
            number: self.number.clone(),
            name: self.name.clone(),
            activities: self.activities.clone(),
        }
    }
}

/// A course, as plain values.
#[verifier::ext_equal]
pub struct CourseModel {
    pub id: CourseID,
    pub number: Seq<char>,
    pub name: Seq<char>,
    pub activities: Seq<ActivityID>,
}

impl View for Course {
    type V = CourseModel;

    open spec fn view(&self) -> CourseModel {
        CourseModel {
            id: self.id,
            number: self.number@,
            name: self.name@,
            activities: self.activities@,
        }
    }
}

/// Everything that is stored, as plain values.
#[verifier::ext_equal]
pub struct DataModel {
    pub concepts: Seq<ConceptModel>,
    pub activities: Seq<ActivityModel>,
    pub representations: Seq<RepresentationModel>,
    pub courses: Seq<CourseModel>,
}

impl View for Data {
    type V = DataModel;

    open spec fn view(&self) -> DataModel {
        DataModel {
            concepts: self.concepts@.map_values(|c: Concept| c@),
            activities: self.activities@.map_values(|a: Activity| a@),
            representations: self.representations@.map_values(|r: Representation| r@),
            courses: self.courses@.map_values(|c: Course| c@),
        }
    }
}

/// `name`, trimmed, is the name of the concept or the number of its
/// identifier.
pub open spec fn names_concept(c: ConceptModel, name: Seq<char>) -> bool {
    c.name == trimmed(name) || parsed(trimmed(name)) == Some(c.id.0)
}

/// `name`, trimmed, is the number or the name of the course.
pub open spec fn names_course(c: CourseModel, name: Seq<char>) -> bool {
    c.number == trimmed(name) || c.name == trimmed(name)
}

impl DataModel {
    /// The store with `c` in the place `i` of the concepts.
    pub open spec fn put_concept(self, i: int, c: ConceptModel) -> DataModel {
        DataModel { concepts: self.concepts.update(i, c), ..self }
    }

    /// The store with `a` in the place `i` of the activities.
    pub open spec fn put_activity(self, i: int, a: ActivityModel) -> DataModel {
        DataModel { activities: self.activities.update(i, a), ..self }
    }

    /// The store with `r` in the place `i` of the representations.
    pub open spec fn put_representation(self, i: int, r: RepresentationModel) -> DataModel {
        DataModel { representations: self.representations.update(i, r), ..self }
    }

    /// The store with `c` in the place `i` of the courses.
    pub open spec fn put_course(self, i: int, c: CourseModel) -> DataModel {
        DataModel { courses: self.courses.update(i, c), ..self }
    }

    /// The first concept that `name` names is the one at `i`.
    pub open spec fn first_concept(self, name: Seq<char>, i: int) -> bool {
        &&& 0 <= i < self.concepts.len()
        &&& names_concept(self.concepts[i], name)
        &&& forall|j: int| 0 <= j < i ==> !names_concept(#[trigger] self.concepts[j], name)
    }

    /// No concept is named by `name`.
    pub open spec fn no_concept(self, name: Seq<char>) -> bool {
        forall|j: int|
            0 <= j < self.concepts.len() ==> !names_concept(#[trigger] self.concepts[j], name)
    }

    /// The store with the concept that `name` names, and that concept: the
    /// first that `name` names, or a new one of that name, trimmed.
    pub open spec fn having_concept(self, name: Seq<char>) -> (DataModel, ConceptID) {
        if self.no_concept(name) {
            let id = ConceptID(self.concepts.len() as usize);
            (
                DataModel {
                    concepts: self.concepts.push(
                        ConceptModel {
                            id,
                            name: trimmed(name),
                            prereq_concepts: Seq::empty(),
                            representations: Map::empty(),
                            figure: None,
                            long_description: Seq::empty(),
                        },
                    ),
                    ..self
                },
                id,
            )
        } else {
            (self, self.concepts[choose|i: int| self.first_concept(name, i)].id)
        }
    }

    /// The first activity of the name `name` is the one at `i`.
    pub open spec fn first_activity(self, name: Seq<char>, i: int) -> bool {
        &&& 0 <= i < self.activities.len()
        &&& self.activities[i].name == name
        &&& forall|j: int| 0 <= j < i ==> (#[trigger] self.activities[j]).name != name
    }

    /// No activity has the name `name`.
    pub open spec fn no_activity(self, name: Seq<char>) -> bool {
        forall|j: int| 0 <= j < self.activities.len() ==> (#[trigger] self.activities[j]).name != name
    }

    /// The store with the activity of the name `name`, and that activity: the
    /// first of that name, or a new one.
    pub open spec fn having_activity(self, name: Seq<char>) -> (DataModel, ActivityID) {
        if self.no_activity(name) {
            let id = ActivityID(self.activities.len() as usize);
            (
                DataModel {
                    activities: self.activities.push(
                        ActivityModel {
                            id,
                            name,
                            prereq_concepts: Seq::empty(),
                            new_concepts: Seq::empty(),
                            representations: Seq::empty(),
                            long_description: Seq::empty(),
                            figure: None,
                            external_url: None,
                        },
                    ),
                    ..self
                },
                id,
            )
        } else {
            (self, self.activities[choose|i: int| self.first_activity(name, i)].id)
        }
    }

    /// The first representation of the name `name` is the one at `i`.
    pub open spec fn first_representation(self, name: Seq<char>, i: int) -> bool {
        &&& 0 <= i < self.representations.len()
        &&& self.representations[i].name == name
        &&& forall|j: int| 0 <= j < i ==> (#[trigger] self.representations[j]).name != name
    }

    /// No representation has the name `name`.
    pub open spec fn no_representation(self, name: Seq<char>) -> bool {
        forall|j: int|
            0 <= j < self.representations.len() ==> (#[trigger] self.representations[j]).name
                != name
    }

    /// The first representation without a name is the one at `i`.
    pub open spec fn first_unnamed(self, i: int) -> bool {
        &&& 0 <= i < self.representations.len()
        &&& self.representations[i].name.len() == 0
        &&& forall|j: int| 0 <= j < i ==> (#[trigger] self.representations[j]).name.len() != 0
    }

    /// Every representation has a name.
    pub open spec fn all_named(self) -> bool {
        forall|j: int|
            0 <= j < self.representations.len() ==> (#[trigger] self.representations[j]).name.len()
                != 0
    }

    /// The store with the representation of the name `name`, and that
    /// representation: the first of that name, or a new one, with the name for
    /// its icon, in the place of the first representation without a name or
    /// after the last.
    pub open spec fn having_representation(self, name: Seq<char>) -> (
        DataModel,
        RepresentationID,
    ) {
        if !self.no_representation(name) {
            (self, self.representations[choose|i: int| self.first_representation(name, i)].id)
        } else {
            let place = if self.all_named() {
                self.representations.len() as int
            } else {
                choose|i: int| self.first_unnamed(i)
            };
            let id = RepresentationID(place as usize);
            let r = RepresentationModel {
                id,
                name,
                description: Seq::empty(),
                icon: IconModel::Html(name),
            };
            (
                DataModel {
                    representations: if self.all_named() {
                        self.representations.push(r)
                    } else {
                        self.representations.update(place, r)
                    },
                    ..self
                },
                id,
            )
        }
    }

    /// The first course that `name` names is the one at `i`.
    pub open spec fn first_course(self, name: Seq<char>, i: int) -> bool {
        &&& 0 <= i < self.courses.len()
        &&& names_course(self.courses[i], name)
        &&& forall|j: int| 0 <= j < i ==> !names_course(#[trigger] self.courses[j], name)
    }

    /// No course is named by `name`.
    pub open spec fn no_course(self, name: Seq<char>) -> bool {
        forall|j: int|
            0 <= j < self.courses.len() ==> !names_course(#[trigger] self.courses[j], name)
    }

    /// The store with the course that `name` names, and that course: the
    /// first that `name` names, or a new one of that number, trimmed, with
    /// the name that the number is known by.
    pub open spec fn having_course(self, name: Seq<char>) -> (DataModel, CourseID) {
        if self.no_course(name) {
            let id = CourseID(self.courses.len() as usize);
            (
                DataModel {
                    courses: self.courses.push(
                        CourseModel {
                            id,
                            number: trimmed(name),
                            name: course_title(trimmed(name)),
                            activities: Seq::empty(),
                        },
                    ),
                    ..self
                },
                id,
            )
        } else {
            (self, self.courses[choose|i: int| self.first_course(name, i)].id)
        }
    }

    /// The store with the activity `a` at the end of the course `course`,
    /// unless the course has it.
    pub open spec fn added_to_course(self, course: CourseID, a: ActivityID) -> DataModel {
        let c = self.courses[course.0 as int];
        self.put_course(
            course.0 as int,
            CourseModel {
                activities: if c.activities.contains(a) {
                    c.activities
                } else {
                    c.activities.push(a)
                },
                ..c
            },
        )
    }

    /// The store with the activity that anchors the course named
    /// `course_name`, and that activity; the course and the activity are made
    /// where they are missing, and the course holds the activity.
    pub open spec fn anchored(self, course_name: Seq<char>) -> (DataModel, ActivityID) {
        let (d, course) = self.having_course(course_name);
        let (e, a) = d.having_activity(anchor_name(course_name));
        (e.added_to_course(course, a), a)
    }
}

/// Everything that is stored. A thing's identifier is its index in its list.
#[derive(Debug)]
pub struct Data {
    pub concepts: Vec<Concept>,
    pub activities: Vec<Activity>,
    pub representations: Vec<Representation>,
    pub courses: Vec<Course>,
}

/// A course and the concepts it teaches.
#[derive(Debug, Clone)]
pub struct PrereqCourse {
    pub course: Course,
    pub concepts: Vec<Child<ConceptRepresentationView>>,
}

/// An activity and the concepts it teaches.
#[derive(Debug, Clone)]
pub struct ActivityGroup {
    pub activity: Option<Child<Activity>>,
    pub concepts: Vec<Child<ConceptRepresentationView>>,
    pub hint_concepts: Vec<Child<ConceptRepresentationView>>,
}

/// An activity and the concepts it teaches, as shown in a progression.
#[derive(Debug, Clone)]
pub struct ProgressionGroup {
    pub activity: Child<ActivityView>,
    pub concepts: Vec<Child<ConceptRepresentationView>>,
}

/// A course as the sequence of its activities, with the courses that come
/// before it and the activities that could be added to it.
pub struct CourseSequence {
    pub course: Course,
    pub prereq_courses: Vec<PrereqCourse>,
    pub new_activity: ActivityChoice,
    pub groups: Vec<ProgressionGroup>,
}

/// The progression: the courses as sequences, and the courses before them.
pub struct ProgressionView {
    pub prereq_courses: Vec<PrereqCourse>,
    pub courses: Vec<CourseSequence>,
}

/// A choice between concepts.
pub struct ConceptChoice {
    pub id: String,
    pub field: String,
    pub choices: Vec<Concept>,
}

/// A choice between concepts in their representations, by name.
#[derive(Debug, Clone)]
pub struct ConceptRepresentationChoice {
    pub id: String,
    pub field: String,
    pub choices: Vec<String>,
}

/// A choice between activities.
pub struct ActivityChoice {
    pub id: String,
    pub field: String,
    pub choices: Vec<Activity>,
}

/// A choice between things of any kind, by name.
#[derive(Debug, Clone)]
pub struct AnyChoice {
    pub class: String,
    pub id: String,
    pub field: String,
    pub choices: Vec<String>,
}

/// Adding or removing a relationship.
#[derive(Debug, Clone, PartialEq, Eq, PartialOrd, Ord)]
pub struct ChangeRelationship {
    /// The containing thing.
    pub parentid: String,
    /// Mostly "Add" or "Remove".
    pub verb: String,
    pub childid: String,
    /// "prereq" or the like.
    pub relationship: String,
}

/// A thing as it is shown inside another, with what can be done about it
/// there.
#[derive(Debug, Clone)]
pub struct Child<T> {
    pub child: T,
    /// The containing thing.
    pub parentid: String,
    /// Mostly "Add" or "Remove".
    pub verb: String,
    /// "prereq" or the like.
    pub relationship: String,
    /// Whether more detail is shown.
    pub show_detail: bool,
    /// A further class for the page element.
    pub extra_class: String,
    /// The identifier of the page element.
    pub html_id: Option<String>,
}

impl Default for ChangeRelationship {
    /// No change.
    fn default() -> (r: Self)
        ensures
            r.parentid@.len() == 0,
            r.childid@.len() == 0,
            r.verb@.len() == 0,
            r.relationship@.len() == 0,
    {
        ChangeRelationship::none()
    }
}

impl ChangeRelationship {
    /// No change.
    pub fn none() -> (r: Self)
        ensures
            r.parentid@.len() == 0,
            r.childid@.len() == 0,
            r.verb@.len() == 0,
            r.relationship@.len() == 0,
    {
        ChangeRelationship {
            parentid: String::new(),
            childid: String::new(),
            verb: String::new(),
            relationship: String::new(),
        }
    }

    /// The change `verb` of the relationship `relationship` of the thing
    /// `parentid`, the other thing not yet named.
    pub fn parent(parentid: String, verb: &str, relationship: &str) -> (r: Self)
        ensures
            r.parentid == parentid,
            r.childid@.len() == 0,
            r.verb@ == verb@,
            r.relationship@ == relationship@,
    {
        ChangeRelationship {
            parentid,
            childid: String::new(),
            verb: verb.to_owned(),
            relationship: relationship.to_owned(),
        }
    }

    /// The same change, for the other thing `childid`.
    pub fn child(&self, childid: String) -> (r: ChangeRelationship)
        ensures
            r.parentid == self.parentid,
            r.childid == childid,
            r.verb == self.verb,
            r.relationship == self.relationship,
    {
        ChangeRelationship {
            parentid: self.parentid.clone(),
            childid,
            verb: self.verb.clone(),
            relationship: self.relationship.clone(),
        }
    }
}

impl<T> Child<T> {
    /// `child` inside the thing `parentid`, open to the change `verb` of
    /// `relationship`.
    pub fn new(parentid: String, verb: &str, relationship: &str, child: T) -> (r: Self)
        ensures
            r.child == child,
            r.parentid == parentid,
            r.verb@ == verb@,
            r.relationship@ == relationship@,
            !r.show_detail,
            r.extra_class@.len() == 0,
            r.html_id is None,
    {
        Child {
            child,
            parentid,
            verb: verb.to_owned(),
            relationship: relationship.to_owned(),
            show_detail: false,
            extra_class: String::new(),
            html_id: None,
        }
    }

    /// `child` inside nothing, open to no change.
    pub fn none(child: T) -> (r: Self)
        ensures
            r.child == child,
            r.parentid@.len() == 0,
            r.verb@.len() == 0,
            r.relationship@.len() == 0,
            !r.show_detail,
            r.extra_class@.len() == 0,
            r.html_id is None,
    {
        Child {
            child,
            parentid: String::new(),
            verb: String::new(),
            relationship: String::new(),
            show_detail: false,
            extra_class: String::new(),
            html_id: None,
        }
    }

    /// `child` where it can be added to `relationship` of `parentid`.
    pub fn add(parentid: String, relationship: &str, child: T) -> (r: Self)
        ensures
            r.child == child,
            r.parentid == parentid,
            r.verb@ == "Add"@,
            r.relationship@ == relationship@,
            !r.show_detail,
            r.extra_class@.len() == 0,
            r.html_id is None,
    {
        Child::new(parentid, "Add", relationship, child)
    }

    /// `child` where it can be removed from `relationship` of `parentid`.
    pub fn remove(parentid: String, relationship: &str, child: T) -> (r: Self)
        ensures
            r.child == child,
            r.parentid == parentid,
            r.verb@ == "Remove"@,
            r.relationship@ == relationship@,
            !r.show_detail,
            r.extra_class@.len() == 0,
            r.html_id is None,
    {
        Child::new(parentid, "Remove", relationship, child)
    }

    /// The same, shown in detail.
    pub fn with_detail(self) -> (r: Self)
        ensures
            r == (Child { show_detail: true, ..self }),
    {
        Child { show_detail: true, ..self }
    }

    /// The same, open to the change `verb`.
    pub fn set_verb(self, verb: &str) -> (r: Self)
        ensures
            r.verb@ == verb@,
            r == (Child { verb: r.verb, ..self }),
    {
        Child { verb: verb.to_owned(), ..self }
    }

    /// The same, with a class for its element.
    pub fn with_class(self, extra_class: String) -> (r: Self)
        ensures
            r == (Child { extra_class, ..self }),
    {
        Child { extra_class, ..self }
    }

    /// The same, with an identifier for its element.
    pub fn with_html_id(self, html_id: String) -> (r: Self)
        ensures
            r == (Child { html_id: Some(html_id), ..self }),
    {
        Child { html_id: Some(html_id), ..self }
    }
}

impl ActivityGroup {
    /// The group with the detail of its concepts shown.
    pub fn with_detail(self) -> (r: Self)
        ensures
            r.activity == self.activity,
            r.hint_concepts == self.hint_concepts,
            r.concepts@.len() == self.concepts@.len(),
            forall|i: int|
                0 <= i < self.concepts@.len() ==> #[trigger] r.concepts@[i] == (Child {
                    show_detail: true,
                    ..self.concepts@[i]
                }),
    {
        let ActivityGroup { activity, concepts, hint_concepts } = self;
        let mut concepts = concepts;
        let mut shown: Vec<Child<ConceptRepresentationView>> = Vec::new();
        let ghost all = concepts@;
        while concepts.len() > 0
            invariant
                concepts@.len() + shown@.len() == all.len(),
                forall|i: int|
                    0 <= i < concepts@.len() ==> concepts@[i]
                        == all[all.len() - concepts@.len() + i],
                forall|i: int|
                    0 <= i < shown@.len() ==> #[trigger] shown@[i] == (Child {
                        show_detail: true,
                        ..all[i]
                    }),
            decreases concepts.len(),
        {
            let c = concepts.remove(0);
            shown.push(c.with_detail());
        }
        ActivityGroup { activity, concepts: shown, hint_concepts }
    }
}

/// `name`, trimmed, is the name of the concept or the number of its
/// identifier.
pub open spec fn concept_named(c: Concept, name: Seq<char>) -> bool {
    c.name@ == trimmed(name) || parsed(trimmed(name)) == Some(c.id.0)
}

/// `name`, trimmed, is the number or the name of the course.
pub open spec fn course_named(c: Course, name: Seq<char>) -> bool {
    c.number@ == trimmed(name) || c.name@ == trimmed(name)
}

/// The name that a course is known by, where its number is one of a few that
/// are known; its number otherwise.
pub open spec fn course_title(number: Seq<char>) -> Seq<char> {
    if number == "MTH 251"@ {
        "Differential Calculus"@
    } else if number == "MTH 254"@ {
        "Multivariable Calculus"@
    } else if number == "MTH 255"@ {
        "Vector Calculus"@
    } else if number == "PH 423"@ {
        "Energy and Entropy"@
    } else if number == "PH 422"@ {
        "Static Fields"@
    } else {
        number
    }
}

/// The name of the activity that anchors the course named `course_name`.
pub open spec fn anchor_name(course_name: Seq<char>) -> Seq<char> {
    "lower anchor "@ + course_name
}

impl Data {
    /// Every thing has its index for its identifier.
    pub open spec fn wf(&self) -> bool {
        &&& forall|i: int|
            0 <= i < self.concepts@.len() ==> (#[trigger] self.concepts@[i]).id.0 == i
        &&& forall|i: int|
            0 <= i < self.activities@.len() ==> (#[trigger] self.activities@[i]).id.0 == i
        &&& forall|i: int|
            0 <= i < self.representations@.len() ==> (#[trigger] self.representations@[i]).id.0
                == i
        &&& forall|i: int| 0 <= i < self.courses@.len() ==> (#[trigger] self.courses@[i]).id.0 == i
    }

    /// The first concept that `name` names is the one at `i`.
    pub open spec fn first_concept(&self, name: Seq<char>, i: int) -> bool {
        &&& 0 <= i < self.concepts@.len()
        &&& concept_named(self.concepts@[i], name)
        &&& forall|j: int| 0 <= j < i ==> !concept_named(#[trigger] self.concepts@[j], name)
    }

    /// No concept is named by `name`.
    pub open spec fn no_concept(&self, name: Seq<char>) -> bool {
        forall|j: int|
            0 <= j < self.concepts@.len() ==> !concept_named(#[trigger] self.concepts@[j], name)
    }

    /// The first activity of the name `name` is the one at `i`.
    pub open spec fn first_activity(&self, name: Seq<char>, i: int) -> bool {
        &&& 0 <= i < self.activities@.len()
        &&& self.activities@[i].name@ == name
        &&& forall|j: int| 0 <= j < i ==> (#[trigger] self.activities@[j]).name@ != name
    }

    /// No activity has the name `name`.
    pub open spec fn no_activity(&self, name: Seq<char>) -> bool {
        forall|j: int| 0 <= j < self.activities@.len() ==> (#[trigger] self.activities@[j]).name@
            != name
    }

    /// The first representation of the name `name` is the one at `i`.
    pub open spec fn first_representation(&self, name: Seq<char>, i: int) -> bool {
        &&& 0 <= i < self.representations@.len()
        &&& self.representations@[i].name@ == name
        &&& forall|j: int| 0 <= j < i ==> (#[trigger] self.representations@[j]).name@ != name
    }

    /// No representation has the name `name`.
    pub open spec fn no_representation(&self, name: Seq<char>) -> bool {
        forall|j: int|
            0 <= j < self.representations@.len() ==> (#[trigger] self.representations@[j]).name@
                != name
    }

    /// The first course that `name` names is the one at `i`.
    pub open spec fn first_course(&self, name: Seq<char>, i: int) -> bool {
        &&& 0 <= i < self.courses@.len()
        &&& course_named(self.courses@[i], name)
        &&& forall|j: int| 0 <= j < i ==> !course_named(#[trigger] self.courses@[j], name)
    }

    /// No course is named by `name`.
    pub open spec fn no_course(&self, name: Seq<char>) -> bool {
        forall|j: int|
            0 <= j < self.courses@.len() ==> !course_named(#[trigger] self.courses@[j], name)
    }

    /// What names a thing of the store names it among the store's plain
    /// values.
    pub proof fn lemma_names(&self, name: Seq<char>)
        ensures
            self.no_concept(name) == self@.no_concept(name),
            forall|i: int| self.first_concept(name, i) == self@.first_concept(name, i),
            self.no_activity(name) == self@.no_activity(name),
            forall|i: int| self.first_activity(name, i) == self@.first_activity(name, i),
            self.no_representation(name) == self@.no_representation(name),
            forall|i: int|
                self.first_representation(name, i) == self@.first_representation(name, i),
            self.all_named() == self@.all_named(),
            forall|i: int| self.first_unnamed(i) == self@.first_unnamed(i),
            self.no_course(name) == self@.no_course(name),
            forall|i: int| self.first_course(name, i) == self@.first_course(name, i),
    {
        let d = self@;
        assert(self.no_concept(name) == d.no_concept(name)) by {
            if self.no_concept(name) {
                assert forall|j: int| 0 <= j < d.concepts.len() implies !(names_concept(#[trigger] d.concepts[j], name)) by {
                    assert(!(concept_named(#[trigger] self.concepts@[j], name)));
                }
            }
            if d.no_concept(name) {
                assert forall|j: int| 0 <= j < self.concepts@.len() implies !(concept_named(#[trigger] self.concepts@[j], name)) by {
                    assert(!(names_concept(#[trigger] d.concepts[j], name)));
                }
            }
        }
        assert forall|i: int| self.first_concept(name, i) == d.first_concept(name, i) by {
            if self.first_concept(name, i) {
                assert forall|j: int| 0 <= j < i implies !(names_concept(#[trigger] d.concepts[j], name)) by {
                    assert(!(concept_named(#[trigger] self.concepts@[j], name)));
                }
                assert(names_concept(d.concepts[i], name));
            }
            if d.first_concept(name, i) {
                assert forall|j: int| 0 <= j < i implies !(concept_named(#[trigger] self.concepts@[j], name)) by {
                    assert(!(names_concept(#[trigger] d.concepts[j], name)));
                }
                assert(concept_named(self.concepts@[i], name));
            }
        }
        assert(self.no_activity(name) == d.no_activity(name)) by {
            if self.no_activity(name) {
                assert forall|j: int| 0 <= j < d.activities.len() implies !((#[trigger] d.activities[j]).name == name) by {
                    assert(!((#[trigger] self.activities@[j]).name@ == name));
                }
            }
            if d.no_activity(name) {
                assert forall|j: int| 0 <= j < self.activities@.len() implies !((#[trigger] self.activities@[j]).name@ == name) by {
                    assert(!((#[trigger] d.activities[j]).name == name));
                }
            }
        }
        assert forall|i: int| self.first_activity(name, i) == d.first_activity(name, i) by {
            if self.first_activity(name, i) {
                assert forall|j: int| 0 <= j < i implies !((#[trigger] d.activities[j]).name == name) by {
                    assert(!((#[trigger] self.activities@[j]).name@ == name));
                }
                assert(d.activities[i].name == name);
            }
            if d.first_activity(name, i) {
                assert forall|j: int| 0 <= j < i implies !((#[trigger] self.activities@[j]).name@ == name) by {
                    assert(!((#[trigger] d.activities[j]).name == name));
                }
                assert(self.activities@[i].name@ == name);
            }
        }
        assert(self.no_representation(name) == d.no_representation(name)) by {
            if self.no_representation(name) {
                assert forall|j: int| 0 <= j < d.representations.len() implies !((#[trigger] d.representations[j]).name == name) by {
                    assert(!((#[trigger] self.representations@[j]).name@ == name));
                }
            }
            if d.no_representation(name) {
                assert forall|j: int| 0 <= j < self.representations@.len() implies !((#[trigger] self.representations@[j]).name@ == name) by {
                    assert(!((#[trigger] d.representations[j]).name == name));
                }
            }
        }
        assert forall|i: int| self.first_representation(name, i) == d.first_representation(name, i) by {
            if self.first_representation(name, i) {
                assert forall|j: int| 0 <= j < i implies !((#[trigger] d.representations[j]).name == name) by {
                    assert(!((#[trigger] self.representations@[j]).name@ == name));
                }
                assert(d.representations[i].name == name);
            }
            if d.first_representation(name, i) {
                assert forall|j: int| 0 <= j < i implies !((#[trigger] self.representations@[j]).name@ == name) by {
                    assert(!((#[trigger] d.representations[j]).name == name));
                }
                assert(self.representations@[i].name@ == name);
            }
        }
        assert(self.all_named() == d.all_named()) by {
            if self.all_named() {
                assert forall|j: int| 0 <= j < d.representations.len() implies !((#[trigger] d.representations[j]).name.len() == 0) by {
                    assert(!((#[trigger] self.representations@[j]).name@.len() == 0));
                }
            }
            if d.all_named() {
                assert forall|j: int| 0 <= j < self.representations@.len() implies !((#[trigger] self.representations@[j]).name@.len() == 0) by {
                    assert(!((#[trigger] d.representations[j]).name.len() == 0));
                }
            }
        }
        assert forall|i: int| self.first_unnamed(i) == d.first_unnamed(i) by {
            if self.first_unnamed(i) {
                assert forall|j: int| 0 <= j < i implies !((#[trigger] d.representations[j]).name.len() == 0) by {
                    assert(!((#[trigger] self.representations@[j]).name@.len() == 0));
                }
                assert(d.representations[i].name.len() == 0);
            }
            if d.first_unnamed(i) {
                assert forall|j: int| 0 <= j < i implies !((#[trigger] self.representations@[j]).name@.len() == 0) by {
                    assert(!((#[trigger] d.representations[j]).name.len() == 0));
                }
                assert(self.representations@[i].name@.len() == 0);
            }
        }
        assert(self.no_course(name) == d.no_course(name)) by {
            if self.no_course(name) {
                assert forall|j: int| 0 <= j < d.courses.len() implies !(names_course(#[trigger] d.courses[j], name)) by {
                    assert(!(course_named(#[trigger] self.courses@[j], name)));
                }
            }
            if d.no_course(name) {
                assert forall|j: int| 0 <= j < self.courses@.len() implies !(course_named(#[trigger] self.courses@[j], name)) by {
                    assert(!(names_course(#[trigger] d.courses[j], name)));
                }
            }
        }
        assert forall|i: int| self.first_course(name, i) == d.first_course(name, i) by {
            if self.first_course(name, i) {
                assert forall|j: int| 0 <= j < i implies !(names_course(#[trigger] d.courses[j], name)) by {
                    assert(!(course_named(#[trigger] self.courses@[j], name)));
                }
                assert(names_course(d.courses[i], name));
            }
            if d.first_course(name, i) {
                assert forall|j: int| 0 <= j < i implies !(course_named(#[trigger] self.courses@[j], name)) by {
                    assert(!(names_course(#[trigger] d.courses[j], name)));
                }
                assert(course_named(self.courses@[i], name));
            }
        }
    }

    /// A store that holds nothing.
    pub fn new() -> (d: Self)
        ensures
            d.concepts@.len() == 0,
            d.activities@.len() == 0,
            d.representations@.len() == 0,
            d.courses@.len() == 0,
            d@ == (DataModel {
                concepts: Seq::empty(),
                activities: Seq::empty(),
                representations: Seq::empty(),
                courses: Seq::empty(),
            }),
    {
        assert(Seq::<Concept>::empty().map_values(|c: Concept| c@) =~= Seq::empty());
        assert(Seq::<Activity>::empty().map_values(|a: Activity| a@) =~= Seq::empty());
        assert(Seq::<Representation>::empty().map_values(|r: Representation| r@)
            =~= Seq::empty());
        assert(Seq::<Course>::empty().map_values(|c: Course| c@) =~= Seq::empty());
        Data {
            concepts: Vec::new(),
            activities: Vec::new(),
            representations: Vec::new(),
            courses: Vec::new(),
        }
    }

    /// The first concept that has the name `name`, trimmed, or whose
    /// identifier has that number.
    pub fn concept_by_name(&self, name: &str) -> (r: Option<ConceptID>)
        ensures
            match r {
                Some(id) => exists|i: int|
                    self.first_concept(name@, i) && id == (#[trigger] self.concepts@[i]).id,
                None => self.no_concept(name@),
            },
    {
        let wanted = trim(name);
        let number = parse_number(wanted.as_str());
        let mut i: usize = 0;
        while i < self.concepts.len()
            invariant
                i <= self.concepts.len(),
                wanted@ == trimmed(name@),
                number == parsed(wanted@),
                forall|j: int| 0 <= j < i ==> !concept_named(#[trigger] self.concepts@[j], name@),
            decreases self.concepts.len() - i,
        {
            let c = &self.concepts[i];
            let by_number = match number {
                Some(n) => n == c.id.0,
                None => false,
            };
            if same_text(c.name.as_str(), wanted.as_str()) || by_number {
                assert(self.first_concept(name@, i as int));
                return Some(c.id);
            }
            i += 1;
        }
        None
    }

    /// The concept that `name` names; a new one of that name, trimmed, where
    /// there is none.
    pub fn concept_by_name_or_create(&mut self, name: &str) -> (id: ConceptID)
        ensures
            final(self).activities == old(self).activities,
            final(self).representations == old(self).representations,
            final(self).courses == old(self).courses,
            old(self).wf() ==> final(self).wf() && id.0 < final(self).concepts@.len(),
            (final(self)@, id) == old(self)@.having_concept(name@),
    {
        match self.concept_by_name(name) {
            Some(c) => {
                proof {
                    let i = choose|i: int|
                        self.first_concept(name@, i) && c == (#[trigger] self.concepts@[i]).id;
                    assert(self.concepts@[i].id == c);
                    self.lemma_names(name@);
                    let first = choose|i: int| self@.first_concept(name@, i);
                    assert(self@.first_concept(name@, i));
                    assert(self@.first_concept(name@, first));
                    if first < i {
                        assert(self@.concepts[first] == self.concepts@[first]@);
                    } else if i < first {
                        assert(self@.concepts[i] == self.concepts@[i]@);
                    }
                    assert(first == i);
                }
                c
            },
            None => {
                let newid = ConceptID(self.concepts.len());
                self.concepts.push(
                    Concept {
                        id: newid,
                        name: trim(name),
                        prereq_concepts: Vec::new(),
                        representations: BTreeMap::new(),
                        figure: None,
                        long_description: String::new(),
                    },
                );
                assert(self.concepts@.drop_last() =~= old(self).concepts@);
                proof {
                    old(self).lemma_names(name@);
                }
                assert(self.concepts@.last().representations@.map_values(
                    |r: crate::concept::ConceptRepresentation| r@,
                ) =~= Map::empty());
                assert(self@.concepts =~~= old(self)@.having_concept(name@).0.concepts);
                newid
            },
        }
    }

    /// The first activity of the name `name`.
    pub fn activity_by_name(&self, name: &str) -> (r: Option<ActivityID>)
        ensures
            match r {
                Some(id) => exists|i: int|
                    self.first_activity(name@, i) && id == (#[trigger] self.activities@[i]).id,
                None => self.no_activity(name@),
            },
    {
        let mut i: usize = 0;
        while i < self.activities.len()
            invariant
                i <= self.activities.len(),
                forall|j: int| 0 <= j < i ==> (#[trigger] self.activities@[j]).name@ != name@,
            decreases self.activities.len() - i,
        {
            let c = &self.activities[i];
            if same_text(c.name.as_str(), name) {
                assert(self.first_activity(name@, i as int));
                return Some(c.id);
            }
            i += 1;
        }
        None
    }

    /// The activity of the name `name`; a new one of that name where there is
    /// none.
    pub fn activity_by_name_or_create(&mut self, name: &str) -> (id: ActivityID)
        ensures
            final(self).concepts == old(self).concepts,
            final(self).representations == old(self).representations,
            final(self).courses == old(self).courses,
            old(self).wf() ==> final(self).wf() && id.0 < final(self).activities@.len(),
            (final(self)@, id) == old(self)@.having_activity(name@),
    {
        match self.activity_by_name(name) {
            Some(c) => {
                proof {
                    let i = choose|i: int|
                        self.first_activity(name@, i) && c == (#[trigger] self.activities@[i]).id;
                    assert(self.activities@[i].id == c);
                    self.lemma_names(name@);
                    let first = choose|i: int| self@.first_activity(name@, i);
                    assert(self@.first_activity(name@, i));
                    assert(self@.first_activity(name@, first));
                    if first < i {
                        assert(self@.activities[first] == self.activities@[first]@);
                    } else if i < first {
                        assert(self@.activities[i] == self.activities@[i]@);
                    }
                    assert(first == i);
                }
                c
            },
            None => {
                let newid = ActivityID(self.activities.len());
                self.activities.push(
                    Activity {
                        id: newid,
                        name: name.to_owned(),
                        prereq_concepts: Vec::new(),
                        new_concepts: Vec::new(),
                        representations: Vec::new(),
                        figure: None,
                        long_description: Markdown(String::new()),
                        external_url: None,
                    },
                );
                assert(self.activities@.drop_last() =~= old(self).activities@);
                proof {
                    old(self).lemma_names(name@);
                }
                assert(self@.activities =~~= old(self)@.having_activity(name@).0.activities);
                newid
            },
        }
    }

    /// The first representation of the name `name`.
    pub fn representation_by_name(&self, name: &str) -> (r: Option<RepresentationID>)
        ensures
            match r {
                Some(id) => exists|i: int|
                    self.first_representation(name@, i) && id == (
                    #[trigger] self.representations@[i]).id,
                None => self.no_representation(name@),
            },
    {
        let mut i: usize = 0;
        while i < self.representations.len()
            invariant
                i <= self.representations.len(),
                forall|j: int| 0 <= j < i ==> (#[trigger] self.representations@[j]).name@ != name@,
            decreases self.representations.len() - i,
        {
            let c = &self.representations[i];
            if same_text(c.name.as_str(), name) {
                assert(self.first_representation(name@, i as int));
                return Some(c.id);
            }
            i += 1;
        }
        None
    }

    /// The first course that has the number or the name `name`, trimmed.
    pub fn course_by_name(&self, name: &str) -> (r: Option<CourseID>)
        ensures
            match r {
                Some(id) => exists|i: int|
                    self.first_course(name@, i) && id == (#[trigger] self.courses@[i]).id,
                None => self.no_course(name@),
            },
    {
        let wanted = trim(name);
        let mut i: usize = 0;
        while i < self.courses.len()
            invariant
                i <= self.courses.len(),
                wanted@ == trimmed(name@),
                forall|j: int| 0 <= j < i ==> !course_named(#[trigger] self.courses@[j], name@),
            decreases self.courses.len() - i,
        {
            let c = &self.courses[i];
            if same_text(c.number.as_str(), wanted.as_str()) || same_text(
                c.name.as_str(),
                wanted.as_str(),
            ) {
                assert(self.first_course(name@, i as int));
                return Some(c.id);
            }
            i += 1;
        }
        None
    }

    /// The course that `name` names; where there is none, a new one of that
    /// number, trimmed, with the name that the number is known by.
    pub fn course_by_name_or_create(&mut self, name: &str) -> (id: CourseID)
        ensures
            final(self).concepts == old(self).concepts,
            final(self).activities == old(self).activities,
            final(self).representations == old(self).representations,
            old(self).wf() ==> final(self).wf() && id.0 < final(self).courses@.len(),
            (final(self)@, id) == old(self)@.having_course(name@),
    {
        match self.course_by_name(name) {
            Some(c) => {
                proof {
                    let i = choose|i: int|
                        self.first_course(name@, i) && c == (#[trigger] self.courses@[i]).id;
                    assert(self.courses@[i].id == c);
                    self.lemma_names(name@);
                    let first = choose|i: int| self@.first_course(name@, i);
                    assert(self@.first_course(name@, i));
                    assert(self@.first_course(name@, first));
                    if first < i {
                        assert(self@.courses[first] == self.courses@[first]@);
                    } else if i < first {
                        assert(self@.courses[i] == self.courses@[i]@);
                    }
                    assert(first == i);
                }
                c
            },
            None => {
                let newid = CourseID(self.courses.len());
                let number = trim(name);
                let title = if same_text(number.as_str(), "MTH 251") {
                    "Differential Calculus".to_owned()
                } else if same_text(number.as_str(), "MTH 254") {
                    "Multivariable Calculus".to_owned()
                } else if same_text(number.as_str(), "MTH 255") {
                    "Vector Calculus".to_owned()
                } else if same_text(number.as_str(), "PH 423") {
                    "Energy and Entropy".to_owned()
                } else if same_text(number.as_str(), "PH 422") {
                    "Static Fields".to_owned()
                } else {
                    number.clone()
                };
                self.courses.push(
                    Course { id: newid, number, name: title, activities: Vec::new() },
                );
                assert(self.courses@.drop_last() =~= old(self).courses@);
                proof {
                    old(self).lemma_names(name@);
                }
                assert(self@.courses =~~= old(self)@.having_course(name@).0.courses);
                newid
            },
        }
    }
}

impl Data {
    /// The first representation without a name is the one at `i`.
    pub open spec fn first_unnamed(&self, i: int) -> bool {
        &&& 0 <= i < self.representations@.len()
        &&& self.representations@[i].name@.len() == 0
        &&& forall|j: int| 0 <= j < i ==> (#[trigger] self.representations@[j]).name@.len() != 0
    }

    /// Every representation has a name.
    pub open spec fn all_named(&self) -> bool {
        forall|j: int|
            0 <= j < self.representations@.len() ==>
                (#[trigger] self.representations@[j]).name@.len()
                != 0
    }

    fn unnamed_representation(&self) -> (r: Option<usize>)
        ensures
            match r {
                Some(i) => self.first_unnamed(i as int),
                None => self.all_named(),
            },
    {
        let mut i: usize = 0;
        while i < self.representations.len()
            invariant
                i <= self.representations.len(),
                forall|j: int| 0 <= j < i ==>
                    (#[trigger] self.representations@[j]).name@.len() != 0,
            decreases self.representations.len() - i,
        {
            if self.representations[i].name.as_str().unicode_len() == 0 {
                return Some(i);
            }
            i += 1;
        }
        None
    }

    /// The representation of the name `name`. Where there is none, a new one
    /// of that name, with the name for its icon: it takes the place of the
    /// first representation without a name, or the place after the last.
    pub fn representation_by_name_or_create(&mut self, name: &str) -> (id: RepresentationID)
        ensures
            final(self).concepts == old(self).concepts,
            final(self).activities == old(self).activities,
            final(self).courses == old(self).courses,
            old(self).wf() ==> final(self).wf() && id.0 < final(self).representations@.len(),
            (final(self)@, id) == old(self)@.having_representation(name@),
    {
        match self.representation_by_name(name) {
            Some(c) => {
                proof {
                    let i = choose|i: int|
                        self.first_representation(name@, i) && c == (
                        #[trigger] self.representations@[i]).id;
                    assert(self.representations@[i].id == c);
                    self.lemma_names(name@);
                    let first = choose|i: int| self@.first_representation(name@, i);
                    assert(self@.first_representation(name@, i));
                    assert(self@.first_representation(name@, first));
                    if first < i {
                        assert(self@.representations[first] == self.representations@[first]@);
                    } else if i < first {
                        assert(self@.representations[i] == self.representations@[i]@);
                    }
                    assert(first == i);
                }
                c
            },
            None => {
                match self.unnamed_representation() {
                    Some(i) => {
                        let newid = RepresentationID(i);
                        self.representations.set(
                            i,
                            Representation {
                                id: newid,
                                name: name.to_owned(),
                                description: Markdown(String::new()),
                                icon: Icon::Html(name.to_owned()),
                            },
                        );
                        proof {
                            if old(self).all_named() {
                                assert(old(self).representations@[i as int].name@.len() != 0);
                            }
                            old(self).lemma_names(name@);
                            let first = choose|i: int| old(self)@.first_unnamed(i);
                            assert(old(self)@.first_unnamed(i as int));
                            assert(old(self)@.first_unnamed(first));
                            if first < i {
                                assert(old(self)@.representations[first]
                                    == old(self).representations@[first]@);
                            } else if i < first {
                                assert(old(self)@.representations[i as int]
                                    == old(self).representations@[i as int]@);
                            }
                            assert(first == i);
                            assert(self@.representations =~~= old(self)@.having_representation(
                                name@,
                            ).0.representations);
                        }
                        newid
                    },
                    None => {
                        let newid = RepresentationID(self.representations.len());
                        self.representations.push(
                            Representation {
                                id: newid,
                                name: name.to_owned(),
                                description: Markdown(String::new()),
                                icon: Icon::Html(name.to_owned()),
                            },
                        );
                        assert(self.representations@.drop_last() =~= old(self).representations@);
                        proof {
                            old(self).lemma_names(name@);
                        }
                        assert(self@.representations =~~= old(self)@.having_representation(
                            name@,
                        ).0.representations);
                        newid
                    },
                }
            },
        }
    }

    /// Puts the activity `a` at the end of the course `course`, unless the
    /// course has it.
    pub fn add_to_course(&mut self, course: CourseID, a: ActivityID)
        requires
            course.0 < old(self).courses@.len(),
        ensures
            final(self).concepts == old(self).concepts,
            final(self).activities == old(self).activities,
            final(self).representations == old(self).representations,
            old(self).wf() ==> final(self).wf(),
            final(self)@ == old(self)@.added_to_course(course, a),
    {
        let present = holds_activity(&self.courses[course.0].activities, a);
        if !present {
            let mut c = self.courses.remove(course.0);
            c.activities.push(a);
            self.courses.insert(course.0, c);
        } else {
            assert(self.courses@ == old(self).courses@);
        }
        assert(self@.courses =~~= old(self)@.added_to_course(course, a).courses);
    }

    /// The activity that anchors the course named `course_name`. Makes the
    /// course and the activity where they are missing, and puts the activity
    /// into the course.
    pub fn lower_anchor(&mut self, course_name: &str) -> (id: ActivityID)
        requires
            old(self).wf(),
        ensures
            final(self).wf(),
            final(self).concepts == old(self).concepts,
            final(self).representations == old(self).representations,
            id.0 < final(self).activities@.len(),
            (final(self)@, id) == old(self)@.anchored(course_name@),
    {
        let course = self.course_by_name_or_create(course_name);
        let name = concat("lower anchor ", course_name);
        let id = self.activity_by_name_or_create(name.as_str());
        self.add_to_course(course, id);
        id
    }

    /// The activity `id`, to be changed.
    pub fn get_activity(&mut self, id: ActivityID) -> (a: &mut Activity)
        requires
            id.0 < old(self).activities@.len(),
        ensures
            *a == old(self).activities@[id.0 as int],
            final(self).activities@ == old(self).activities@.update(id.0 as int, *final(a)),
            final(self).concepts == old(self).concepts,
            final(self).representations == old(self).representations,
            final(self).courses == old(self).courses,
    {
        &mut self.activities[id.0]
    }

    /// Puts `c` in the place of the concept of its identifier.
    pub fn set_concept(&mut self, c: Concept)
        requires
            c.id.0 < old(self).concepts@.len(),
        ensures
            final(self).concepts@ == old(self).concepts@.update(c.id.0 as int, c),
            final(self).activities == old(self).activities,
            final(self).representations == old(self).representations,
            final(self).courses == old(self).courses,
            old(self).wf() ==> final(self).wf(),
    {
        let i = c.id.0;
        self.concepts.set(i, c);
    }

    /// Puts `a` in the place of the activity of its identifier.
    pub fn set_activity(&mut self, a: Activity)
        requires
            a.id.0 < old(self).activities@.len(),
        ensures
            final(self).activities@ == old(self).activities@.update(a.id.0 as int, a),
            final(self).concepts == old(self).concepts,
            final(self).representations == old(self).representations,
            final(self).courses == old(self).courses,
            old(self).wf() ==> final(self).wf(),
    {
        let i = a.id.0;
        self.activities.set(i, a);
    }
}

/// Whether `a` is among `activities`.
pub fn holds_activity(activities: &Vec<ActivityID>, a: ActivityID) -> (b: bool)
    ensures
        b == activities@.contains(a),
{
    let mut i: usize = 0;
    while i < activities.len()
        invariant
            i <= activities.len(),
            forall|j: int| 0 <= j < i ==> activities@[j] != a,
        decreases activities.len() - i,
    {
        if activities[i] == a {
            return true;
        }
        i += 1;
    }
    false
}

impl Child<Concept> {
    /// The change that is on offer for what is shown.
    pub fn addremove(&self) -> (r: ChangeRelationship)
        ensures
            r.parentid == self.parentid,
            r.childid@ == self.child.id.html_spec(),
            r.verb == self.verb,
            r.relationship == self.relationship,
    {
        ChangeRelationship {
            parentid: self.parentid.clone(),
            childid: self.child.id.html(),
            verb: self.verb.clone(),
            relationship: self.relationship.clone(),
        }
    }
}

impl PartialEq for Child<Concept> {
    /// Two are equal where they show the same thing.
    fn eq(&self, x: &Child<Concept>) -> (r: bool) {
        self.child.id == x.child.id
    }
}

impl PartialEqSpecImpl for Child<Concept> {
    open spec fn obeys_eq_spec() -> bool {
        true
    }

    open spec fn eq_spec(&self, x: &Child<Concept>) -> bool {
        self.child.id == x.child.id
    }
}

impl Child<Activity> {
    /// The change that is on offer for what is shown.
    pub fn addremove(&self) -> (r: ChangeRelationship)
        ensures
            r.parentid == self.parentid,
            r.childid@ == self.child.id.html_spec(),
            r.verb == self.verb,
            r.relationship == self.relationship,
    {
        ChangeRelationship {
            parentid: self.parentid.clone(),
            childid: self.child.id.html(),
            verb: self.verb.clone(),
            relationship: self.relationship.clone(),
        }
    }
}

impl PartialEq for Child<Activity> {
    /// Two are equal where they show the same thing.
    fn eq(&self, x: &Child<Activity>) -> (r: bool) {
        self.child.id == x.child.id
    }
}

impl PartialEqSpecImpl for Child<Activity> {
    open spec fn obeys_eq_spec() -> bool {
        true
    }

    open spec fn eq_spec(&self, x: &Child<Activity>) -> bool {
        self.child.id == x.child.id
    }
}

impl Child<ActivityView> {
    /// The change that is on offer for what is shown.
    pub fn addremove(&self) -> (r: ChangeRelationship)
        ensures
            r.parentid == self.parentid,
            r.childid@ == self.child.id.html_spec(),
            r.verb == self.verb,
            r.relationship == self.relationship,
    {
        ChangeRelationship {
            parentid: self.parentid.clone(),
            childid: self.child.id.html(),
            verb: self.verb.clone(),
            relationship: self.relationship.clone(),
        }
    }
}

impl PartialEq for Child<ActivityView> {
    /// Two are equal where they show the same thing.
    fn eq(&self, x: &Child<ActivityView>) -> (r: bool) {
        self.child.id == x.child.id
    }
}

impl PartialEqSpecImpl for Child<ActivityView> {
    open spec fn obeys_eq_spec() -> bool {
        true
    }

    open spec fn eq_spec(&self, x: &Child<ActivityView>) -> bool {
        self.child.id == x.child.id
    }
}

impl Child<Representation> {
    /// The change that is on offer for what is shown.
    pub fn addremove(&self) -> (r: ChangeRelationship)
        ensures
            r.parentid == self.parentid,
            r.childid@ == self.child.id.html_spec(),
            r.verb == self.verb,
            r.relationship == self.relationship,
    {
        ChangeRelationship {
            parentid: self.parentid.clone(),
            childid: self.child.id.html(),
            verb: self.verb.clone(),
            relationship: self.relationship.clone(),
        }
    }
}

impl PartialEq for Child<Representation> {
    /// Two are equal where they show the same thing.
    fn eq(&self, x: &Child<Representation>) -> (r: bool) {
        self.child.id == x.child.id
    }
}

impl PartialEqSpecImpl for Child<Representation> {
    open spec fn obeys_eq_spec() -> bool {
        true
    }

    open spec fn eq_spec(&self, x: &Child<Representation>) -> bool {
        self.child.id == x.child.id
    }
}

impl Child<ConceptRepresentationView> {
    /// The change that is on offer for what is shown.
    pub fn addremove(&self) -> (r: ChangeRelationship)
        ensures
            r.parentid == self.parentid,
            r.childid@ == self.child.id.html_spec(),
            r.verb == self.verb,
            r.relationship == self.relationship,
    {
        ChangeRelationship {
            parentid: self.parentid.clone(),
            childid: self.child.id.html(),
            verb: self.verb.clone(),
            relationship: self.relationship.clone(),
        }
    }
}

impl PartialEq for Child<ConceptRepresentationView> {
    /// Two are equal where they show the same thing.
    fn eq(&self, x: &Child<ConceptRepresentationView>) -> (r: bool) {
        self.child.id == x.child.id
    }
}

impl PartialEqSpecImpl for Child<ConceptRepresentationView> {
    open spec fn obeys_eq_spec() -> bool {
        true
    }

    open spec fn eq_spec(&self, x: &Child<ConceptRepresentationView>) -> bool {
        self.child.id == x.child.id
    }
}

impl<T> std::ops::Deref for Child<T> {
    type Target = T;

    fn deref(&self) -> (r: &T)
        ensures
            *r == self.child,
    {
        &self.child
    }
}

/// An identifier that names a thing of the store by its place.
pub trait ID: Copy {
    /// The kind of thing that the identifier names.
    type Target;

    /// The store holds the thing.
    spec fn within(self, data: &Data) -> bool;

    /// The thing.
    spec fn target(self, data: &Data) -> Self::Target;

    /// `after` is `before` with `thing` in the place of the thing.
    spec fn put(self, before: &Data, after: &Data, thing: Self::Target) -> bool;

    fn get(self, data: &Data) -> (r: &Self::Target)
        requires
            self.within(data),
        ensures
            *r == self.target(data),
    ;

    fn get_mut(self, data: &mut Data) -> (r: &mut Self::Target)
        requires
            self.within(&*old(data)),
        ensures
            *r == self.target(&*old(data)),
            self.put(&*old(data), &*final(data), *final(r)),
    ;
}

impl ID for ConceptID {
    type Target = Concept;

    open spec fn within(self, data: &Data) -> bool {
        self.0 < data.concepts@.len()
    }

    open spec fn target(self, data: &Data) -> Concept {
        data.concepts@[self.0 as int]
    }

    open spec fn put(self, before: &Data, after: &Data, thing: Concept) -> bool {
        &&& after.concepts@ == before.concepts@.update(self.0 as int, thing)
        &&& after.activities == before.activities
        &&& after.representations == before.representations
        &&& after.courses == before.courses
    }

    fn get(self, data: &Data) -> (r: &Concept) {
        &data.concepts[self.0]
    }

    fn get_mut(self, data: &mut Data) -> (r: &mut Concept) {
        &mut data.concepts[self.0]
    }
}

impl ID for ActivityID {
    type Target = Activity;

    open spec fn within(self, data: &Data) -> bool {
        self.0 < data.activities@.len()
    }

    open spec fn target(self, data: &Data) -> Activity {
        data.activities@[self.0 as int]
    }

    open spec fn put(self, before: &Data, after: &Data, thing: Activity) -> bool {
        &&& after.activities@ == before.activities@.update(self.0 as int, thing)
        &&& after.concepts == before.concepts
        &&& after.representations == before.representations
        &&& after.courses == before.courses
    }

    fn get(self, data: &Data) -> (r: &Activity) {
        &data.activities[self.0]
    }

    fn get_mut(self, data: &mut Data) -> (r: &mut Activity) {
        &mut data.activities[self.0]
    }
}

impl ID for RepresentationID {
    type Target = Representation;

    open spec fn within(self, data: &Data) -> bool {
        self.0 < data.representations@.len()
    }

    open spec fn target(self, data: &Data) -> Representation {
        data.representations@[self.0 as int]
    }

    open spec fn put(self, before: &Data, after: &Data, thing: Representation) -> bool {
        &&& after.representations@ == before.representations@.update(self.0 as int, thing)
        &&& after.concepts == before.concepts
        &&& after.activities == before.activities
        &&& after.courses == before.courses
    }

    fn get(self, data: &Data) -> (r: &Representation) {
        &data.representations[self.0]
    }

    fn get_mut(self, data: &mut Data) -> (r: &mut Representation) {
        &mut data.representations[self.0]
    }
}

impl ID for CourseID {
    type Target = Course;

    open spec fn within(self, data: &Data) -> bool {
        self.0 < data.courses@.len()
    }

    open spec fn target(self, data: &Data) -> Course {
        data.courses@[self.0 as int]
    }

    open spec fn put(self, before: &Data, after: &Data, thing: Course) -> bool {
        &&& after.courses@ == before.courses@.update(self.0 as int, thing)
        &&& after.concepts == before.concepts
        &&& after.activities == before.activities
        &&& after.representations == before.representations
    }

    fn get(self, data: &Data) -> (r: &Course) {
        &data.courses[self.0]
    }

    fn get_mut(self, data: &mut Data) -> (r: &mut Course) {
        &mut data.courses[self.0]
    }
}

impl Data {
    /// The thing that `id` names.
    pub fn get<I: ID>(&self, id: I) -> (r: &I::Target)
        requires
            id.within(self),
        ensures
            *r == id.target(self),
    {
        id.get(self)
    }

    /// The thing that `id` names, to be changed.
    pub fn get_mut<I: ID>(&mut self, id: I) -> (r: &mut I::Target)
        requires
            id.within(&*old(self)),
        ensures
            *r == id.target(&*old(self)),
            id.put(&*old(self), &*final(self), *final(r)),
    {
        id.get_mut(self)
    }
}

} // verus!
