//! Activities: what teaches concepts.

use crate::concept::ConceptRepresentationView;
use crate::data::{
    ActivityGroup, AnyChoice, Child, ConceptRepresentationChoice, Course, PrereqCourse,
};
use crate::ids::{ActivityID, ConceptRepresentationID, RepresentationID};
use crate::markdown::Markdown;
use crate::representation::Representation;
use crate::text::text_of;
use vstd::prelude::*;
use vstd::std_specs::cmp::PartialEqSpecImpl;

verus! {

/// An activity: what it asks for, what it teaches and what it uses.
#[derive(Debug, PartialEq, Eq, PartialOrd, Ord)]
pub struct Activity {
    pub id: ActivityID,
    pub name: String,
    pub prereq_concepts: Vec<ConceptRepresentationID>,
    pub new_concepts: Vec<ConceptRepresentationID>,
    pub representations: Vec<RepresentationID>,
    pub long_description: Markdown,
    pub figure: Option<String>,
    pub external_url: Option<String>,
}

/// An activity, as plain values.
#[verifier::ext_equal]
pub struct ActivityModel {
    pub id: ActivityID,
    pub name: Seq<char>,
    pub prereq_concepts: Seq<ConceptRepresentationID>,
    pub new_concepts: Seq<ConceptRepresentationID>,
    pub representations: Seq<RepresentationID>,
    pub long_description: Seq<char>,
    pub figure: Option<Seq<char>>,
    pub external_url: Option<Seq<char>>,
}

impl View for Activity {
    type V = ActivityModel;

    open spec fn view(&self) -> ActivityModel {
        ActivityModel {
            id: self.id,
            name: self.name@,
            prereq_concepts: self.prereq_concepts@,
            new_concepts: self.new_concepts@,
            representations: self.representations@,
            long_description: self.long_description@,
            figure: text_of(self.figure),
            external_url: text_of(self.external_url),
        }
    }
}

impl Activity {
    /// The two activities hold the same.
    pub open spec fn same(&self, other: &Activity) -> bool {
        &&& self.id == other.id
        &&& self.name == other.name
        &&& self.prereq_concepts@ == other.prereq_concepts@
        &&& self.new_concepts@ == other.new_concepts@
        &&& self.representations@ == other.representations@
        &&& self.long_description == other.long_description
        &&& self.figure == other.figure
        &&& self.external_url == other.external_url
    }
}

impl Clone for Activity {
    fn clone(&self) -> (r: Self)
        ensures
            r.same(self),
    {
        Activity {
            id: self.id,
            name: self.name.clone(),
            prereq_concepts: self.prereq_concepts.clone(),
            new_concepts: self.new_concepts.clone(),
            representations: self.representations.clone(),
            long_description: self.long_description.clone(),
            figure: self.figure.clone(),
            external_url: self.external_url.clone(),
        }
    }
}

/// An activity with its relationships filled in.
#[derive(Debug, Clone)]
pub struct ActivityView {
    pub id: ActivityID,
    pub name: String,
    pub prereq_courses: Vec<PrereqCourse>,
    pub prereq_groups: Vec<ActivityGroup>,
    pub new_concepts: Vec<Child<ConceptRepresentationView>>,
    pub choices: ConceptRepresentationChoice,
    pub representation_choice: AnyChoice,
    pub output_groups: Vec<ActivityGroup>,
    pub representations: Vec<Child<Representation>>,
    pub courses: Vec<Course>,
    pub figure: Option<String>,
    pub long_description: Markdown,
    pub external_url: Option<String>,
}

/// The identifiers of the concepts of the first `n` of `groups`, group after
/// group.
pub open spec fn group_ids(groups: Seq<ActivityGroup>, n: int) -> Seq<ConceptRepresentationID>
    decreases n,
{
    if n <= 0 {
        Seq::empty()
    } else {
        group_ids(groups, n - 1) + child_ids(groups[n - 1].concepts@)
    }
}

/// The identifiers of the concepts of the first `n` of `courses`, course
/// after course.
pub open spec fn course_ids(courses: Seq<PrereqCourse>, n: int) -> Seq<ConceptRepresentationID>
    decreases n,
{
    if n <= 0 {
        Seq::empty()
    } else {
        course_ids(courses, n - 1) + child_ids(courses[n - 1].concepts@)
    }
}

/// The identifiers of the concepts shown.
pub open spec fn child_ids(concepts: Seq<Child<ConceptRepresentationView>>) -> Seq<
    ConceptRepresentationID,
> {
    Seq::new(concepts.len(), |i: int| concepts[i].child.id)
}

fn push_child_ids(
    out: &mut Vec<ConceptRepresentationID>,
    concepts: &Vec<Child<ConceptRepresentationView>>,
)
    ensures
        final(out)@ == old(out)@ + child_ids(concepts@),
{
    let mut i: usize = 0;
    assert(out@ =~= old(out)@ + child_ids(concepts@).take(0));
    while i < concepts.len()
        invariant
            i <= concepts.len(),
            out@ == old(out)@ + child_ids(concepts@).take(i as int),
        decreases concepts.len() - i,
    {
        out.push(concepts[i].child.id);
        assert(out@ =~= old(out)@ + child_ids(concepts@).take(i + 1));
        i += 1;
    }
    assert(child_ids(concepts@).take(i as int) =~= child_ids(concepts@));
}

impl ActivityView {
    /// The choice of concepts, for the field `field`.
    pub fn choices_for(&self, field: &str) -> (r: ConceptRepresentationChoice)
        ensures
            r.field@ == field@,
            r.id == self.choices.id,
            r.choices@.len() == self.choices.choices@.len(),
            forall|i: int|
                0 <= i < r.choices@.len() ==> #[trigger] r.choices@[i] == self.choices.choices@[i],
    {
        let mut choices: Vec<String> = Vec::new();
        let mut i: usize = 0;
        while i < self.choices.choices.len()
            invariant
                i <= self.choices.choices.len(),
                choices@.len() == i,
                forall|j: int| 0 <= j < i ==> #[trigger] choices@[j] == self.choices.choices@[j],
            decreases self.choices.choices.len() - i,
        {
            choices.push(self.choices.choices[i].clone());
            i += 1;
        }
        ConceptRepresentationChoice { id: self.choices.id.clone(), field: field.to_owned(), choices }
    }

    /// The concepts that the activity asks for: those of its groups, then
    /// those of the courses before it.
    pub fn prereq_concepts(&self) -> (out: Vec<ConceptRepresentationID>)
        ensures
            out@ == group_ids(self.prereq_groups@, self.prereq_groups@.len() as int) + course_ids(
                self.prereq_courses@,
                self.prereq_courses@.len() as int,
            ),
    {
        let mut out: Vec<ConceptRepresentationID> = Vec::new();
        let mut g: usize = 0;
        assert(out@ =~= group_ids(self.prereq_groups@, 0));
        while g < self.prereq_groups.len()
            invariant
                g <= self.prereq_groups.len(),
                out@ == group_ids(self.prereq_groups@, g as int),
            decreases self.prereq_groups.len() - g,
        {
            push_child_ids(&mut out, &self.prereq_groups[g].concepts);
            g += 1;
        }
        let ghost first = out@;
        let mut c: usize = 0;
        assert(out@ =~= first + course_ids(self.prereq_courses@, 0));
        while c < self.prereq_courses.len()
            invariant
                c <= self.prereq_courses.len(),
                out@ == first + course_ids(self.prereq_courses@, c as int),
            decreases self.prereq_courses.len() - c,
        {
            push_child_ids(&mut out, &self.prereq_courses[c].concepts);
            assert(out@ =~= first + course_ids(self.prereq_courses@, c + 1));
            c += 1;
        }
        out
    }
}

impl PartialEq for ActivityView {
    /// Two views are equal where they are views of the same activity.
    fn eq(&self, other: &ActivityView) -> (r: bool) {
        self.id == other.id
    }
}

impl PartialEqSpecImpl for ActivityView {
    open spec fn obeys_eq_spec() -> bool {
        true
    }

    open spec fn eq_spec(&self, other: &ActivityView) -> bool {
        self.id == other.id
    }
}

impl Eq for ActivityView {

}

} // verus!
