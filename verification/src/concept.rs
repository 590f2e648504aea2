//! Concepts: what is to be learnt.

use crate::activity::Activity;
use crate::data::{ActivityGroup, AnyChoice, Course, PrereqCourse};
use crate::ids::{ConceptID, ConceptRepresentationID, RepresentationID};
use crate::representation::Representation;
use crate::graph::{ascending, insert_ascending};
use crate::text::text_of;
use std::collections::BTreeMap;
use vstd::prelude::*;
use vstd::std_specs::cmp::PartialEqSpecImpl;

verus! {

/// A concept: what it asks for, and what is particular to it in each of its
/// representations.
#[derive(Debug, PartialEq, Eq, PartialOrd, Ord)]
pub struct Concept {
    pub id: ConceptID,
    pub name: String,
    pub prereq_concepts: Vec<ConceptID>,
    /// What is particular to the concept in a representation, by the number of
    /// the `RepresentationID`.
    pub representations: BTreeMap<usize, ConceptRepresentation>,
    pub figure: Option<String>,
    pub long_description: String,
}

/// The keys of `map`, ascending.
pub fn keys_of<V>(map: &BTreeMap<usize, V>) -> (out: Vec<usize>)
    ensures
        ascending(out@),
        forall|k: usize| out@.contains(k) <==> map@.contains_key(k),
{
    let mut out: Vec<usize> = Vec::new();
    for k in it: map.keys()
        invariant
            ascending(out@),
            it.seq().unref().to_set() == map@.dom(),
            forall|x: usize| out@.contains(x) ==> map@.contains_key(x),
            forall|j: int|
                0 <= j < it.index() ==> out@.contains(#[trigger] it.seq().unref()[j]),
            forall|x: usize|
                map@.contains_key(x) ==> exists|j: int|
                    0 <= j < it.seq().len() && #[trigger] it.seq().unref()[j] == x,
    {
        let ghost before = out@;
        insert_ascending(&mut out, *k);
        proof {
            let all = it.seq().unref();
            assert(all[it.index() as int] == *k);
            assert(all.contains(*k));
            assert(all.to_set().contains(*k));
            assert forall|j: int| 0 <= j < it.index() + 1 implies out@.contains(
                #[trigger] all[j],
            ) by {
                if j < it.index() {
                    assert(before.contains(all[j]));
                }
            }
        }
    }
    out
}

impl Concept {
    /// Makes `id` one of the representations of the concept, with nothing
    /// particular to it yet. What was particular to it before is lost.
    pub fn add_representation(&mut self, id: RepresentationID)
        ensures
            final(self).representations@.dom() == old(self).representations@.dom().insert(id.0),
            final(self).representations@[id.0].name@.len() == 0,
            final(self).representations@[id.0].long_description@.len() == 0,
            final(self).representations@[id.0].figure is None,
            forall|k: usize|
                k != id.0 && old(self).representations@.contains_key(k) ==>
                    final(self).representations@[k] == old(self).representations@[k],
            final(self).id == old(self).id,
            final(self).name == old(self).name,
            final(self).prereq_concepts == old(self).prereq_concepts,
            final(self).figure == old(self).figure,
            final(self).long_description == old(self).long_description,
            final(self)@ == (ConceptModel {
                representations: old(self)@.representations.insert(id.0, blank()),
                ..old(self)@
            }),
    {
        self.representations.insert(
            id.0,
            ConceptRepresentation {
                name: String::new(),
                long_description: String::new(),
                figure: None,
            },
        );
        proof {
            assert(self.representations@[id.0].name@ =~= Seq::empty());
            assert(self.representations@[id.0].long_description@ =~= Seq::empty());
            assert(self@.representations =~= old(self)@.representations.insert(id.0, blank()));
        }
    }
}

/// What is particular to a concept in one representation.
#[derive(Debug, PartialEq, Eq, PartialOrd, Ord)]
pub struct ConceptRepresentation {
    pub name: String,
    pub long_description: String,
    pub figure: Option<String>,
}

impl Clone for ConceptRepresentation {
    fn clone(&self) -> (r: Self)
        ensures
            r == *self,
    {
        ConceptRepresentation {
            name: self.name.clone(),
            long_description: self.long_description.clone(),
            figure: self.figure.clone(),
        }
    }
}

/// What is particular to a concept in one representation, as plain values.
#[verifier::ext_equal]
pub struct ManifestationModel {
    pub name: Seq<char>,
    pub long_description: Seq<char>,
    pub figure: Option<Seq<char>>,
}

impl View for ConceptRepresentation {
    type V = ManifestationModel;

    open spec fn view(&self) -> ManifestationModel {
        ManifestationModel {
            name: self.name@,
            long_description: self.long_description@,
            figure: text_of(self.figure),
        }
    }
}

/// Nothing particular yet.
pub open spec fn blank() -> ManifestationModel {
    ManifestationModel { name: Seq::empty(), long_description: Seq::empty(), figure: None }
}

/// A concept, as plain values.
#[verifier::ext_equal]
pub struct ConceptModel {
    pub id: ConceptID,
    pub name: Seq<char>,
    pub prereq_concepts: Seq<ConceptID>,
    pub representations: Map<usize, ManifestationModel>,
    pub figure: Option<Seq<char>>,
    pub long_description: Seq<char>,
}

impl View for Concept {
    type V = ConceptModel;

    open spec fn view(&self) -> ConceptModel {
        ConceptModel {
            id: self.id,
            name: self.name@,
            prereq_concepts: self.prereq_concepts@,
            representations: self.representations@.map_values(|r: ConceptRepresentation| r@),
            figure: text_of(self.figure),
            long_description: self.long_description@,
        }
    }
}

impl Concept {
    /// The two concepts hold the same.
    pub open spec fn same(&self, other: &Concept) -> bool {
        &&& self.id == other.id
        &&& self.name == other.name
        &&& self.prereq_concepts@ == other.prereq_concepts@
        &&& self.representations@ == other.representations@
        &&& self.figure == other.figure
        &&& self.long_description == other.long_description
    }
}

impl Clone for Concept {
    fn clone(&self) -> (r: Self)
        ensures
            r.same(self),
    {
        Concept {
            id: self.id,
            name: self.name.clone(),
            prereq_concepts: self.prereq_concepts.clone(),
            representations: self.representations.clone(),
            figure: self.figure.clone(),
            long_description: self.long_description.clone(),
        }
    }
}

/// A concept with its relationships filled in.
#[derive(Debug)]
pub struct ConceptView {
    pub id: ConceptID,
    pub name: String,
    pub activities: Vec<Activity>,
    pub prereq_courses: Vec<PrereqCourse>,
    pub prereq_concepts: Vec<ConceptID>,
    pub prereq_groups: Vec<ActivityGroup>,
    pub needed_for_concepts: Vec<ConceptID>,
    /// All concepts there are: what a new relationship can be chosen from.
    pub all_concepts: Vec<Concept>,
    /// All activities there are: what a new relationship can be chosen from.
    pub all_activities: Vec<Activity>,
    pub representation_choice: AnyChoice,
    pub output_groups: Vec<ActivityGroup>,
    pub representations: Vec<ActivityGroup>,
    pub courses: Vec<Course>,
    pub figure: Option<String>,
    pub long_description: String,
}

impl Clone for ConceptView {
    fn clone(&self) -> (r: Self)
        ensures
            r.id == self.id,
            r.name@ == self.name@,
    {
        ConceptView {
            id: self.id,
            name: self.name.clone(),
            activities: self.activities.clone(),
            prereq_courses: self.prereq_courses.clone(),
            prereq_concepts: self.prereq_concepts.clone(),
            prereq_groups: self.prereq_groups.clone(),
            needed_for_concepts: self.needed_for_concepts.clone(),
            all_concepts: self.all_concepts.clone(),
            all_activities: self.all_activities.clone(),
            representation_choice: self.representation_choice.clone(),
            output_groups: self.output_groups.clone(),
            representations: self.representations.clone(),
            courses: self.courses.clone(),
            figure: self.figure.clone(),
            long_description: self.long_description.clone(),
        }
    }
}

/// A concept, as such or in one representation, with what teaches it.
#[derive(Debug, Clone)]
pub struct ConceptRepresentationView {
    pub id: ConceptRepresentationID,
    pub activities: Vec<Activity>,
    pub representation: Option<Representation>,
    pub summary_name: String,
    pub name: String,
    pub long_description: String,
    pub figure: Option<String>,
}

impl PartialEq for ConceptView {
    /// Two views are equal where they are views of the same concept.
    fn eq(&self, other: &ConceptView) -> (r: bool) {
        self.id == other.id
    }
}

impl PartialEqSpecImpl for ConceptView {
    open spec fn obeys_eq_spec() -> bool {
        true
    }

    open spec fn eq_spec(&self, other: &ConceptView) -> bool {
        self.id == other.id
    }
}

impl Eq for ConceptView {

}

} // verus!
