//! A plain store of concepts, activities and representations, in which a
//! thing is found by its name and made where it is missing.

use crate::text::same_text;
use vstd::prelude::*;

verus! {

/// The place of a concept in the store.
#[derive(Debug, Clone, Copy, PartialEq, Eq, Structural, PartialOrd, Ord)]
pub struct ConceptID(pub usize);

/// The place of an activity in the store.
#[derive(Debug, Clone, Copy, PartialEq, Eq, Structural, PartialOrd, Ord)]
pub struct ActivityID(pub usize);

/// The place of a representation in the store.
#[derive(Debug, Clone, Copy, PartialEq, Eq, Structural, PartialOrd, Ord)]
pub struct RepresentationID(pub usize);

/// The number of a course.
#[derive(Debug, Clone, Copy, PartialEq, Eq, Structural, PartialOrd, Ord)]
pub struct CourseID(pub usize);

/// A concept, with what a table says of it.
#[derive(Debug, Clone, PartialEq, Eq, PartialOrd, Ord)]
pub struct Concept {
    pub id: ConceptID,
    pub name: String,
    pub prereq_concepts: Vec<ConceptID>,
    pub representations: Vec<RepresentationID>,
    pub courses: Vec<CourseID>,
    pub figure: Option<String>,
    pub long_description: String,
    pub external_url: Option<String>,
    pub status: Option<String>,
    pub notes: Option<String>,
}

/// An activity, with what a table says of it.
#[derive(Debug, Clone, PartialEq, Eq, PartialOrd, Ord)]
pub struct Activity {
    pub id: ActivityID,
    pub name: String,
    pub prereq_concepts: Vec<ConceptID>,
    pub new_concepts: Vec<ConceptID>,
    pub representations: Vec<RepresentationID>,
    pub courses: Vec<CourseID>,
    pub figure: Option<String>,
    pub long_description: String,
    pub external_url: Option<String>,
    pub status: Option<String>,
    pub notes: Option<String>,
}

/// A representation, known by its name.
#[derive(Debug, Clone, PartialEq, Eq, PartialOrd, Ord)]
pub struct Representation {
    pub id: RepresentationID,
    pub name: String,
}

/// Everything that is stored.
#[derive(Debug)]
pub struct Data {
    pub concepts: Vec<Concept>,
    pub activities: Vec<Activity>,
    pub representations: Vec<Representation>,
}

impl Data {
    /// The first concept of the name `name` is the one at `i`.
    pub open spec fn first_concept(&self, name: Seq<char>, i: int) -> bool {
        &&& 0 <= i < self.concepts@.len()
        &&& self.concepts@[i].name@ == name
        &&& forall|j: int| 0 <= j < i ==> (#[trigger] self.concepts@[j]).name@ != name
    }

    /// The first activity of the name `name` is the one at `i`.
    pub open spec fn first_activity(&self, name: Seq<char>, i: int) -> bool {
        &&& 0 <= i < self.activities@.len()
        &&& self.activities@[i].name@ == name
        &&& forall|j: int| 0 <= j < i ==> (#[trigger] self.activities@[j]).name@ != name
    }

    /// The first representation of the name `name` is the one at `i`.
    pub open spec fn first_representation(&self, name: Seq<char>, i: int) -> bool {
        &&& 0 <= i < self.representations@.len()
        &&& self.representations@[i].name@ == name
        &&& forall|j: int| 0 <= j < i ==> (#[trigger] self.representations@[j]).name@ != name
    }

    /// A store that holds nothing.
    pub fn new() -> (d: Self)
        ensures
            d.concepts@.len() == 0,
            d.activities@.len() == 0,
            d.representations@.len() == 0,
    {
        Data { concepts: Vec::new(), activities: Vec::new(), representations: Vec::new() }
    }

    /// The first concept of the name `name`; a new one of that name, at the
    /// end, where there is none.
    pub fn concept_by_name(&mut self, name: &str) -> (id: ConceptID)
        ensures
            final(self).activities == old(self).activities,
            final(self).representations == old(self).representations,
            (exists|i: int| old(self).first_concept(name@, i)) ==> final(self).concepts
                == old(self).concepts && exists|i: int|
                old(self).first_concept(name@, i) && id == (#[trigger] old(self).concepts@[i]).id,
            !(exists|i: int| old(self).first_concept(name@, i)) ==> {
                &&& id == ConceptID(old(self).concepts@.len() as usize)
                &&& final(self).concepts@.drop_last() == old(self).concepts@
                &&& final(self).concepts@.len() == old(self).concepts@.len() + 1
                &&& final(self).concepts@.last().id == id
                &&& final(self).concepts@.last().name@ == name@
                &&& final(self).concepts@.last().prereq_concepts@.len() == 0
                &&& final(self).concepts@.last().representations@.len() == 0
                &&& final(self).concepts@.last().courses@.len() == 0
                &&& final(self).concepts@.last().long_description@.len() == 0
            },
    {
        let mut i: usize = 0;
        while i < self.concepts.len()
            invariant
                i <= self.concepts.len(),
                *self == *old(self),
                forall|j: int| 0 <= j < i ==> (#[trigger] self.concepts@[j]).name@ != name@,
            decreases self.concepts.len() - i,
        {
            if same_text(self.concepts[i].name.as_str(), name) {
                assert(self.first_concept(name@, i as int));
                return self.concepts[i].id;
            }
            i += 1;
        }
        let newid = ConceptID(self.concepts.len());
        self.concepts.push(
            Concept {
                id: newid,
                name: name.to_owned(),
                prereq_concepts: Vec::new(),
                representations: Vec::new(),
                courses: Vec::new(),
                figure: None,
                long_description: String::new(),
                external_url: None,
                status: None,
                notes: None,
            },
        );
        assert(self.concepts@.drop_last() =~= old(self).concepts@);
        newid
    }

    /// The first activity of the name `name`; a new one of that name, at the
    /// end, where there is none.
    pub fn activity_by_name(&mut self, name: &str) -> (id: ActivityID)
        ensures
            final(self).concepts == old(self).concepts,
            final(self).representations == old(self).representations,
            (exists|i: int| old(self).first_activity(name@, i)) ==> final(self).activities
                == old(self).activities && exists|i: int|
                old(self).first_activity(name@, i) && id
                    == (#[trigger] old(self).activities@[i]).id,
            !(exists|i: int| old(self).first_activity(name@, i)) ==> {
                &&& id == ActivityID(old(self).activities@.len() as usize)
                &&& final(self).activities@.drop_last() == old(self).activities@
                &&& final(self).activities@.len() == old(self).activities@.len() + 1
                &&& final(self).activities@.last().id == id
                &&& final(self).activities@.last().name@ == name@
                &&& final(self).activities@.last().prereq_concepts@.len() == 0
                &&& final(self).activities@.last().new_concepts@.len() == 0
                &&& final(self).activities@.last().representations@.len() == 0
                &&& final(self).activities@.last().courses@.len() == 0
                &&& final(self).activities@.last().long_description@.len() == 0
            },
    {
        let mut i: usize = 0;
        while i < self.activities.len()
            invariant
                i <= self.activities.len(),
                *self == *old(self),
                forall|j: int| 0 <= j < i ==> (#[trigger] self.activities@[j]).name@ != name@,
            decreases self.activities.len() - i,
        {
            if same_text(self.activities[i].name.as_str(), name) {
                assert(self.first_activity(name@, i as int));
                return self.activities[i].id;
            }
            i += 1;
        }
        let newid = ActivityID(self.activities.len());
        self.activities.push(
            Activity {
                id: newid,
                name: name.to_owned(),
                prereq_concepts: Vec::new(),
                new_concepts: Vec::new(),
                representations: Vec::new(),
                courses: Vec::new(),
                figure: None,
                long_description: String::new(),
                external_url: None,
                status: None,
                notes: None,
            },
        );
        assert(self.activities@.drop_last() =~= old(self).activities@);
        newid
    }

    /// The first representation of the name `name`; a new one of that name,
    /// at the end, where there is none.
    pub fn representation_by_name(&mut self, name: &str) -> (id: RepresentationID)
        ensures
            final(self).concepts == old(self).concepts,
            final(self).activities == old(self).activities,
            (exists|i: int| old(self).first_representation(name@, i)) ==>
                final(self).representations == old(self).representations && exists|i: int|
                old(self).first_representation(name@, i) && id
                    == (#[trigger] old(self).representations@[i]).id,
            !(exists|i: int| old(self).first_representation(name@, i)) ==> {
                &&& id == RepresentationID(old(self).representations@.len() as usize)
                &&& final(self).representations@.drop_last() == old(self).representations@
                &&& final(self).representations@.len() == old(self).representations@.len() + 1
                &&& final(self).representations@.last().id == id
                &&& final(self).representations@.last().name@ == name@
            },
    {
        let mut i: usize = 0;
        while i < self.representations.len()
            invariant
                i <= self.representations.len(),
                *self == *old(self),
                forall|j: int| 0 <= j < i ==> (#[trigger] self.representations@[j]).name@ != name@,
            decreases self.representations.len() - i,
        {
            if same_text(self.representations[i].name.as_str(), name) {
                assert(self.first_representation(name@, i as int));
                return self.representations[i].id;
            }
            i += 1;
        }
        let newid = RepresentationID(self.representations.len());
        self.representations.push(Representation { id: newid, name: name.to_owned() });
        assert(self.representations@.drop_last() =~= old(self).representations@);
        newid
    }

    /// Puts `c` in the place `id`.
    pub fn set_concept(&mut self, id: ConceptID, c: Concept)
        requires
            id.0 < old(self).concepts@.len(),
        ensures
            final(self).concepts@ == old(self).concepts@.update(id.0 as int, c),
            final(self).activities == old(self).activities,
            final(self).representations == old(self).representations,
    {
        self.concepts.set(id.0, c);
    }

    /// Puts `a` in the place `id`.
    pub fn set_activity(&mut self, id: ActivityID, a: Activity)
        requires
            id.0 < old(self).activities@.len(),
        ensures
            final(self).activities@ == old(self).activities@.update(id.0 as int, a),
            final(self).concepts == old(self).concepts,
            final(self).representations == old(self).representations,
    {
        self.activities.set(id.0, a);
    }
}

} // verus!
