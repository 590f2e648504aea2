//! The changes that an author asks for.

use crate::activity::Activity;
use crate::concept::{Concept, ConceptRepresentation};
use crate::activity::ActivityModel;
use crate::concept::{blank, ConceptModel, ManifestationModel};
use crate::data::{Change, Course, CourseModel, Data, DataModel};
use crate::markdown::tidied;
use crate::representation::{IconModel, RepresentationModel};
use crate::ids::{
    any_id, ActivityID, AnyID, ConceptID, ConceptRepresentationID, CourseID, ParseError,
    RepresentationID,
};
use crate::markdown::Markdown;
use crate::representation::{Icon, Representation};
use crate::text::{same_text, trim, trimmed};
use vstd::prelude::*;

verus! {

/// Why a change was not made.
#[derive(Clone, Copy, Debug, PartialEq, Eq, Structural)]
pub enum ChangeError {
    /// An identifier could not be read.
    Parse(ParseError),
    /// The thing has no such field, or no such relationship.
    UnknownField,
    /// The relationship does not take a thing of that kind.
    WrongKind,
    /// The store does not hold a thing that the change names.
    Missing,
}

/// `v` without `x`.
pub open spec fn dropped<T>(v: Seq<T>, x: T) -> Seq<T>
    decreases v.len(),
{
    if v.len() == 0 {
        Seq::empty()
    } else if v.last() == x {
        dropped(v.drop_last(), x)
    } else {
        dropped(v.drop_last(), x).push(v.last())
    }
}

/// `v` without the concept `c`, as such and in any representation.
pub open spec fn dropped_concept(v: Seq<ConceptRepresentationID>, c: ConceptID) -> Seq<
    ConceptRepresentationID,
>
    decreases v.len(),
{
    if v.len() == 0 {
        Seq::empty()
    } else if v.last().concept == c {
        dropped_concept(v.drop_last(), c)
    } else {
        dropped_concept(v.drop_last(), c).push(v.last())
    }
}

/// `x` first stands at `i` in the list.
pub open spec fn stands_first(v: Seq<ActivityID>, x: ActivityID, i: int) -> bool {
    &&& 0 <= i < v.len()
    &&& v[i] == x
    &&& forall|j: int| 0 <= j < i ==> v[j] != x
}

/// The list with `x`, where it first stands, moved one place up or down;
/// none where the list does not hold `x`, or no place is left to move to.
pub open spec fn moved(v: Seq<ActivityID>, x: ActivityID, up: bool) -> Option<Seq<ActivityID>> {
    let which = choose|i: int| stands_first(v, x, i);
    let to = if up {
        which - 1
    } else {
        which + 1
    };
    if !v.contains(x) || to < 0 || to >= v.len() {
        None
    } else {
        Some(v.update(to, v[which]).update(which, v[to]))
    }
}

/// The representations up to the last that has a name.
pub open spec fn named_front(reps: Seq<RepresentationModel>) -> Seq<RepresentationModel>
    decreases reps.len(),
{
    if reps.len() > 0 && reps.last().name.len() == 0 {
        named_front(reps.drop_last())
    } else {
        reps
    }
}

/// Takes `x` out of the list.
pub fn drop_activity(v: &mut Vec<ActivityID>, x: ActivityID)
    ensures
        final(v)@ == dropped(old(v)@, x),
{
    let mut out: Vec<ActivityID> = Vec::new();
    let mut i: usize = 0;
    while i < v.len()
        invariant
            i <= v.len(),
            v@ == old(v)@,
            out@ == dropped(v@.take(i as int), x),
        decreases v.len() - i,
    {
        assert(v@.take(i + 1).drop_last() == v@.take(i as int));
        if v[i] != x {
            out.push(v[i]);
        }
        i += 1;
    }
    assert(v@.take(i as int) == v@);
    *v = out;
}

/// Takes `x` out of the list.
pub fn drop_plain(v: &mut Vec<ConceptID>, x: ConceptID)
    ensures
        final(v)@ == dropped(old(v)@, x),
{
    let mut out: Vec<ConceptID> = Vec::new();
    let mut i: usize = 0;
    while i < v.len()
        invariant
            i <= v.len(),
            v@ == old(v)@,
            out@ == dropped(v@.take(i as int), x),
        decreases v.len() - i,
    {
        assert(v@.take(i + 1).drop_last() == v@.take(i as int));
        if v[i] != x {
            out.push(v[i]);
        }
        i += 1;
    }
    assert(v@.take(i as int) == v@);
    *v = out;
}

/// Takes `x` out of the list.
pub fn drop_representation(v: &mut Vec<RepresentationID>, x: RepresentationID)
    ensures
        final(v)@ == dropped(old(v)@, x),
{
    let mut out: Vec<RepresentationID> = Vec::new();
    let mut i: usize = 0;
    while i < v.len()
        invariant
            i <= v.len(),
            v@ == old(v)@,
            out@ == dropped(v@.take(i as int), x),
        decreases v.len() - i,
    {
        assert(v@.take(i + 1).drop_last() == v@.take(i as int));
        if v[i] != x {
            out.push(v[i]);
        }
        i += 1;
    }
    assert(v@.take(i as int) == v@);
    *v = out;
}

/// Takes `x` out of the list.
pub fn drop_id(v: &mut Vec<ConceptRepresentationID>, x: ConceptRepresentationID)
    ensures
        final(v)@ == dropped(old(v)@, x),
{
    let mut out: Vec<ConceptRepresentationID> = Vec::new();
    let mut i: usize = 0;
    while i < v.len()
        invariant
            i <= v.len(),
            v@ == old(v)@,
            out@ == dropped(v@.take(i as int), x),
        decreases v.len() - i,
    {
        assert(v@.take(i + 1).drop_last() == v@.take(i as int));
        if v[i] != x {
            out.push(v[i]);
        }
        i += 1;
    }
    assert(v@.take(i as int) == v@);
    *v = out;
}

/// Takes the concept `c` out of the list, as such and in any
/// representation.
pub fn drop_concept_of(v: &mut Vec<ConceptRepresentationID>, c: ConceptID)
    ensures
        final(v)@ == dropped_concept(old(v)@, c),
{
    let mut out: Vec<ConceptRepresentationID> = Vec::new();
    let mut i: usize = 0;
    while i < v.len()
        invariant
            i <= v.len(),
            v@ == old(v)@,
            out@ == dropped_concept(v@.take(i as int), c),
        decreases v.len() - i,
    {
        assert(v@.take(i + 1).drop_last() == v@.take(i as int));
        if v[i].concept != c {
            out.push(v[i]);
        }
        i += 1;
    }
    assert(v@.take(i as int) == v@);
    *v = out;
}

/// Where `x` first stands in the list.
pub fn place_of(v: &Vec<ActivityID>, x: ActivityID) -> (r: Option<usize>)
    ensures
        match r {
            Some(i) => i < v@.len() && v@[i as int] == x && forall|j: int|
                0 <= j < i ==> v@[j] != x,
            None => !v@.contains(x),
        },
{
    let mut i: usize = 0;
    while i < v.len()
        invariant
            i <= v.len(),
            forall|j: int| 0 <= j < i ==> v@[j] != x,
        decreases v.len() - i,
    {
        if v[i] == x {
            return Some(i);
        }
        i += 1;
    }
    None
}

/// Exchanges what stands at `i` and at `j`.
pub fn exchange(v: &mut Vec<ActivityID>, i: usize, j: usize)
    requires
        i < old(v)@.len(),
        j < old(v)@.len(),
    ensures
        final(v)@
            == old(v)@.update(i as int, old(v)@[j as int]).update(j as int, old(v)@[i as int]),
{
    let a = v[i];
    let b = v[j];
    v.set(i, b);
    v.set(j, a);
}

/// What a change turns to, read as the identifier of a thing.
pub fn other_thing(content: &str) -> (r: Result<AnyID, ChangeError>)
    ensures
        r == match crate::ids::any_id(content@) {
            Ok(id) => Ok::<AnyID, ChangeError>(id),
            Err(e) => Err(ChangeError::Parse(e)),
        },
{
    match AnyID::parse(content) {
        Ok(id) => Ok(id),
        Err(e) => Err(ChangeError::Parse(e)),
    }
}

impl Data {
    /// The store after the change `c` to the course `id`, or why the change
    /// cannot be made. The field `activity` adds the activity that the
    /// content names, made where it is missing; `up` and `down` move the
    /// activity that the content identifies by one place; `Remove`, with
    /// `teaches` for the relationship, takes that activity out of the course.
    pub open spec fn changed_course(&self, id: CourseID, c: Change) -> Result<
        DataModel,
        ChangeError,
    > {
        let i = id.0 as int;
        if id.0 >= self.courses@.len() {
            Err(ChangeError::Missing)
        } else if c.field@ == "activity"@ {
            let (d, a) = self@.having_activity(c.content@);
            Ok(d.added_to_course(id, a))
        } else if c.field@ == "up"@ || c.field@ == "down"@ {
            match any_id(c.content@) {
                Err(e) => Err(ChangeError::Parse(e)),
                Ok(AnyID::Activity(a)) => match moved(
                    self.courses@[i].activities@,
                    a,
                    c.field@ == "up"@,
                ) {
                    Some(v) => Ok(
                        self@.put_course(i, CourseModel { activities: v, ..self@.courses[i] }),
                    ),
                    None => Err(ChangeError::Missing),
                },
                Ok(_) => Err(ChangeError::WrongKind),
            }
        } else if c.field@ == "Remove"@ {
            if c.html@ != "teaches"@ {
                Err(ChangeError::UnknownField)
            } else {
                match any_id(c.content@) {
                    Err(e) => Err(ChangeError::Parse(e)),
                    Ok(AnyID::Activity(a)) => Ok(
                        self@.put_course(
                            i,
                            CourseModel {
                                activities: dropped(self.courses@[i].activities@, a),
                                ..self@.courses[i]
                            },
                        ),
                    ),
                    Ok(_) => Err(ChangeError::WrongKind),
                }
            }
        } else {
            Err(ChangeError::UnknownField)
        }
    }

    /// Makes the change `c` to the course `id`: a further activity, by name
    /// (`activity`); an activity moved one place `up` or `down`; an activity
    /// that the course `teaches` removed (`Remove`).
    pub fn change_course(&mut self, id: CourseID, c: &Change) -> (r: Result<(), ChangeError>)
        requires
            old(self).wf(),
        ensures
            final(self).wf(),
            match old(self).changed_course(id, *c) {
                Ok(d) => r is Ok && final(self)@ == d,
                Err(e) => r == Err::<(), ChangeError>(e) && *final(self) == *old(self),
            },
    {
        if id.0 >= self.courses.len() {
            return Err(ChangeError::Missing);
        }
        if same_text(c.field.as_str(), "activity") {
            let a = self.activity_by_name_or_create(c.content.as_str());
            self.add_to_course(id, a);
            Ok(())
        } else if same_text(c.field.as_str(), "up") || same_text(c.field.as_str(), "down") {
            let up = same_text(c.field.as_str(), "up");
            match other_thing(c.content.as_str()) {
                Err(e) => Err(e),
                Ok(AnyID::Activity(aid)) => {
                    match place_of(&self.courses[id.0].activities, aid) {
                        None => Err(ChangeError::Missing),
                        Some(which) => {
                            let n = self.courses[id.0].activities.len();
                            proof {
                                // the place that was found is the first
                                let v = self.courses@[id.0 as int].activities@;
                                let first = choose|i: int| stands_first(v, aid, i);
                                assert(stands_first(v, aid, which as int));
                                assert(first == which);
                            }
                            if up && which == 0 || !up && which + 1 >= n {
                                return Err(ChangeError::Missing);
                            }
                            let to = if up {
                                which - 1
                            } else {
                                which + 1
                            };
                            let course = self.get_mut(id);
                            exchange(&mut course.activities, to, which);
                            assert(self@ =~~= old(self).changed_course(id, *c)->Ok_0);
                            Ok(())
                        },
                    }
                },
                Ok(_) => Err(ChangeError::WrongKind),
            }
        } else if same_text(c.field.as_str(), "Remove") {
            if !same_text(c.html.as_str(), "teaches") {
                return Err(ChangeError::UnknownField);
            }
            match other_thing(c.content.as_str()) {
                Err(e) => Err(e),
                Ok(AnyID::Activity(aid)) => {
                    let course = self.get_mut(id);
                    drop_activity(&mut course.activities, aid);
                    assert(self@ =~~= old(self).changed_course(id, *c)->Ok_0);
                    Ok(())
                },
                Ok(_) => Err(ChangeError::WrongKind),
            }
        } else {
            Err(ChangeError::UnknownField)
        }
    }

    /// The store after the change `c` to the concept in a representation
    /// `id`, or why the change cannot be made. The field `name` gives it the
    /// content, trimmed, for its name there; `long_description` the Markdown
    /// that `markdown` is tidied to.
    pub open spec fn changed_manifestation(
        &self,
        id: ConceptRepresentationID,
        c: Change,
        markdown: Seq<char>,
    ) -> Result<DataModel, ChangeError> {
        let i = id.concept.0 as int;
        match id.representation {
            None => Err(ChangeError::Missing),
            Some(rid) => if id.concept.0 >= self.concepts@.len()
                || !self.concepts@[i].representations@.contains_key(rid.0) {
                Err(ChangeError::Missing)
            } else {
                let concept = self@.concepts[i];
                let there = concept.representations[rid.0];
                if c.field@ == "name"@ {
                    Ok(
                        self@.put_concept(
                            i,
                            ConceptModel {
                                representations: concept.representations.insert(
                                    rid.0,
                                    ManifestationModel { name: trimmed(c.content@), ..there },
                                ),
                                ..concept
                            },
                        ),
                    )
                } else if c.field@ == "long_description"@ {
                    Ok(
                        self@.put_concept(
                            i,
                            ConceptModel {
                                representations: concept.representations.insert(
                                    rid.0,
                                    ManifestationModel {
                                        long_description: tidied(markdown),
                                        ..there
                                    },
                                ),
                                ..concept
                            },
                        ),
                    )
                } else {
                    Err(ChangeError::UnknownField)
                }
            },
        }
    }

    /// Makes the change `c` to the concept in a representation `id`: its
    /// `name` there, or its `long_description` there.
    pub fn change_manifestation(
        &mut self,
        id: ConceptRepresentationID,
        c: &Change,
        markdown: &str,
    ) -> (r: Result<
        (),
        ChangeError,
    >)
        requires
            old(self).wf(),
        ensures
            final(self).wf(),
            match old(self).changed_manifestation(id, *c, markdown@) {
                Ok(d) => r is Ok && final(self)@ == d,
                Err(e) => r == Err::<(), ChangeError>(e) && *final(self) == *old(self),
            },
    {
        let rid = match id.representation {
            Some(rid) => rid,
            None => {
                return Err(ChangeError::Missing);
            },
        };
        if id.concept.0 >= self.concepts.len() {
            return Err(ChangeError::Missing);
        }
        let mut there = match self.concepts[id.concept.0].representations.get(&rid.0) {
            Some(rr) => rr.clone(),
            None => {
                return Err(ChangeError::Missing);
            },
        };
        if same_text(c.field.as_str(), "name") {
            there.name = trim(c.content.as_str());
        } else if same_text(c.field.as_str(), "long_description") {
            there.long_description = Markdown::tidy(markdown).0;
        } else {
            return Err(ChangeError::UnknownField);
        }
        let ghost now = there@;
        let concept = self.get_mut(id.concept);
        concept.representations.insert(rid.0, there);
        proof {
            let i = id.concept.0 as int;
            assert(self.concepts@[i]@.representations =~= old(
                self,
            ).concepts@[i]@.representations.insert(rid.0, now));
            assert(self@.concepts
                =~~= old(self).changed_manifestation(id, *c, markdown@)->Ok_0.concepts);
        }
        Ok(())
    }

    /// The store after the change `c` to the concept `id`, or why the change
    /// cannot be made. The fields `long_description` and `name` take
    /// `markdown`, tidied, and the content, trimmed. The fields `needed
    /// for`, `prereq`, `taught by` and `representation` relate the concept to
    /// the thing that the content names, made where it is missing. `Add` and
    /// `Remove` take the relationship from the HTML and the other thing,
    /// which the store must hold where it is the one that changes, from the
    /// identifier in the content.
    pub open spec fn changed_concept(
        &self,
        id: ConceptID,
        c: Change,
        markdown: Seq<char>,
    ) -> Result<DataModel, ChangeError> {
        let i = id.0 as int;
        let me = self@.concepts[i];
        if id.0 >= self.concepts@.len() {
            Err(ChangeError::Missing)
        } else if c.field@ == "long_description"@ {
            Ok(
                self@.put_concept(
                    i,
                    ConceptModel { long_description: tidied(markdown), ..me },
                ),
            )
        } else if c.field@ == "name"@ {
            Ok(self@.put_concept(i, ConceptModel { name: trimmed(c.content@), ..me }))
        } else if c.field@ == "needed for"@ {
            let (d, other) = self@.having_concept(c.content@);
            let it = d.concepts[other.0 as int];
            Ok(
                d.put_concept(
                    other.0 as int,
                    ConceptModel { prereq_concepts: it.prereq_concepts.push(id), ..it },
                ),
            )
        } else if c.field@ == "prereq"@ {
            let (d, other) = self@.having_concept(c.content@);
            let it = d.concepts[i];
            Ok(
                d.put_concept(
                    i,
                    ConceptModel { prereq_concepts: it.prereq_concepts.push(other), ..it },
                ),
            )
        } else if c.field@ == "taught by"@ {
            let (d, a) = self@.having_activity(c.content@);
            let it = d.activities[a.0 as int];
            Ok(
                d.put_activity(
                    a.0 as int,
                    ActivityModel {
                        new_concepts: it.new_concepts.push(
                            ConceptRepresentationID { concept: id, representation: None },
                        ),
                        ..it
                    },
                ),
            )
        } else if c.field@ == "representation"@ {
            let (d, rid) = self@.having_representation(c.content@);
            Ok(
                d.put_concept(
                    i,
                    ConceptModel {
                        representations: me.representations.insert(rid.0, blank()),
                        ..me
                    },
                ),
            )
        } else if c.field@ == "Add"@ {
            if c.html@ != "needed for"@ && c.html@ != "prereq"@ {
                Err(ChangeError::UnknownField)
            } else {
                match any_id(c.content@) {
                    Err(e) => Err(ChangeError::Parse(e)),
                    Ok(AnyID::Concept(other)) => if c.html@ == "needed for"@ {
                        let it = self@.concepts[other.0 as int];
                        if other.0 >= self.concepts@.len() {
                            Err(ChangeError::Missing)
                        } else {
                            Ok(
                                self@.put_concept(
                                    other.0 as int,
                                    ConceptModel {
                                        prereq_concepts: it.prereq_concepts.push(id),
                                        ..it
                                    },
                                ),
                            )
                        }
                    } else {
                        Ok(
                            self@.put_concept(
                                i,
                                ConceptModel {
                                    prereq_concepts: me.prereq_concepts.push(other),
                                    ..me
                                },
                            ),
                        )
                    },
                    Ok(_) => Err(ChangeError::WrongKind),
                }
            }
        } else if c.field@ == "Remove"@ {
            if c.html@ == "needed for"@ {
                match any_id(c.content@) {
                    Err(e) => Err(ChangeError::Parse(e)),
                    Ok(AnyID::Concept(other)) => {
                        let it = self@.concepts[other.0 as int];
                        if other.0 >= self.concepts@.len() {
                            Err(ChangeError::Missing)
                        } else {
                            Ok(
                                self@.put_concept(
                                    other.0 as int,
                                    ConceptModel {
                                        prereq_concepts: dropped(it.prereq_concepts, id),
                                        ..it
                                    },
                                ),
                            )
                        }
                    },
                    Ok(_) => Err(ChangeError::WrongKind),
                }
            } else if c.html@ == "prereq"@ {
                match any_id(c.content@) {
                    Err(e) => Err(ChangeError::Parse(e)),
                    Ok(AnyID::Concept(other)) => Ok(
                        self@.put_concept(
                            i,
                            ConceptModel {
                                prereq_concepts: dropped(me.prereq_concepts, other),
                                ..me
                            },
                        ),
                    ),
                    Ok(_) => Err(ChangeError::WrongKind),
                }
            } else if c.html@ == "taught by"@ {
                match any_id(c.content@) {
                    Err(e) => Err(ChangeError::Parse(e)),
                    Ok(AnyID::Activity(a)) => {
                        let it = self@.activities[a.0 as int];
                        if a.0 >= self.activities@.len() {
                            Err(ChangeError::Missing)
                        } else {
                            Ok(
                                self@.put_activity(
                                    a.0 as int,
                                    ActivityModel {
                                        new_concepts: dropped_concept(it.new_concepts, id),
                                        ..it
                                    },
                                ),
                            )
                        }
                    },
                    Ok(_) => Err(ChangeError::WrongKind),
                }
            } else if c.html@ == "with"@ {
                match any_id(c.content@) {
                    Err(e) => Err(ChangeError::Parse(e)),
                    Ok(AnyID::ConceptRepresentation(other)) => match other.representation {
                        Some(r) => Ok(
                            self@.put_concept(
                                i,
                                ConceptModel {
                                    representations: me.representations.remove(r.0),
                                    ..me
                                },
                            ),
                        ),
                        None => Ok(self@),
                    },
                    Ok(_) => Err(ChangeError::WrongKind),
                }
            } else {
                Err(ChangeError::UnknownField)
            }
        } else {
            Err(ChangeError::UnknownField)
        }
    }

    /// Makes the change `c` to the concept `id`: its `long_description` or
    /// its `name`; a concept that it is `needed for` or its `prereq`, an
    /// activity that it is `taught by`, a `representation`, each by name; a
    /// relationship with a thing, by identifier, added (`Add`) or removed
    /// (`Remove`).
    pub fn change_concept(&mut self, id: ConceptID, c: &Change, markdown: &str) -> (r: Result<
        (),
        ChangeError,
    >)
        requires
            old(self).wf(),
        ensures
            final(self).wf(),
            match old(self).changed_concept(id, *c, markdown@) {
                Ok(d) => r is Ok && final(self)@ == d,
                Err(e) => r == Err::<(), ChangeError>(e) && *final(self) == *old(self),
            },
    {
        if id.0 >= self.concepts.len() {
            return Err(ChangeError::Missing);
        }
        let field = c.field.as_str();
        if same_text(field, "long_description") {
            let text = Markdown::tidy(markdown).0;
            let concept = self.get_mut(id);
            concept.long_description = text;
            assert(self@ =~~= old(self).changed_concept(id, *c, markdown@)->Ok_0);
            Ok(())
        } else if same_text(field, "name") {
            let concept = self.get_mut(id);
            concept.name = trim(c.content.as_str());
            assert(self@ =~~= old(self).changed_concept(id, *c, markdown@)->Ok_0);
            Ok(())
        } else if same_text(field, "needed for") {
            let other = self.concept_by_name_or_create(c.content.as_str());
            let concept = self.get_mut(other);
            concept.prereq_concepts.push(id);
            assert(self@ =~~= old(self).changed_concept(id, *c, markdown@)->Ok_0);
            Ok(())
        } else if same_text(field, "prereq") {
            let other = self.concept_by_name_or_create(c.content.as_str());
            let concept = self.get_mut(id);
            concept.prereq_concepts.push(other);
            assert(self@ =~~= old(self).changed_concept(id, *c, markdown@)->Ok_0);
            Ok(())
        } else if same_text(field, "taught by") {
            let a = self.activity_by_name_or_create(c.content.as_str());
            let activity = self.get_mut(a);
            activity.new_concepts.push(ConceptRepresentationID { concept: id, representation: None });
            assert(self@ =~~= old(self).changed_concept(id, *c, markdown@)->Ok_0);
            Ok(())
        } else if same_text(field, "representation") {
            let rid = self.representation_by_name_or_create(c.content.as_str());
            let concept = self.get_mut(id);
            concept.add_representation(rid);
            assert(self@ =~~= old(self).changed_concept(id, *c, markdown@)->Ok_0);
            Ok(())
        } else if same_text(field, "Add") {
            let needed = same_text(c.html.as_str(), "needed for");
            if !needed && !same_text(c.html.as_str(), "prereq") {
                return Err(ChangeError::UnknownField);
            }
            match other_thing(c.content.as_str()) {
                Err(e) => Err(e),
                Ok(AnyID::Concept(other)) => {
                    if needed {
                        if other.0 >= self.concepts.len() {
                            return Err(ChangeError::Missing);
                        }
                        let concept = self.get_mut(other);
                        concept.prereq_concepts.push(id);
                    } else {
                        let concept = self.get_mut(id);
                        concept.prereq_concepts.push(other);
                    }
                    assert(self@ =~~= old(self).changed_concept(id, *c, markdown@)->Ok_0);
                    Ok(())
                },
                Ok(_) => Err(ChangeError::WrongKind),
            }
        } else if same_text(field, "Remove") {
            let what = c.html.as_str();
            if same_text(what, "needed for") {
                match other_thing(c.content.as_str()) {
                    Err(e) => Err(e),
                    Ok(AnyID::Concept(other)) => {
                        if other.0 >= self.concepts.len() {
                            return Err(ChangeError::Missing);
                        }
                        let concept = self.get_mut(other);
                        drop_plain(&mut concept.prereq_concepts, id);
                        assert(self@ =~~= old(self).changed_concept(id, *c, markdown@)->Ok_0);
                        Ok(())
                    },
                    Ok(_) => Err(ChangeError::WrongKind),
                }
            } else if same_text(what, "prereq") {
                match other_thing(c.content.as_str()) {
                    Err(e) => Err(e),
                    Ok(AnyID::Concept(other)) => {
                        let concept = self.get_mut(id);
                        drop_plain(&mut concept.prereq_concepts, other);
                        assert(self@ =~~= old(self).changed_concept(id, *c, markdown@)->Ok_0);
                        Ok(())
                    },
                    Ok(_) => Err(ChangeError::WrongKind),
                }
            } else if same_text(what, "taught by") {
                match other_thing(c.content.as_str()) {
                    Err(e) => Err(e),
                    Ok(AnyID::Activity(a)) => {
                        if a.0 >= self.activities.len() {
                            return Err(ChangeError::Missing);
                        }
                        let activity = self.get_mut(a);
                        drop_concept_of(&mut activity.new_concepts, id);
                        assert(self@ =~~= old(self).changed_concept(id, *c, markdown@)->Ok_0);
                        Ok(())
                    },
                    Ok(_) => Err(ChangeError::WrongKind),
                }
            } else if same_text(what, "with") {
                match other_thing(c.content.as_str()) {
                    Err(e) => Err(e),
                    Ok(AnyID::ConceptRepresentation(crid)) => {
                        match crid.representation {
                            Some(r) => {
                                let concept = self.get_mut(id);
                                concept.representations.remove(&r.0);
                            },
                            None => {},
                        }
                        assert(self@ =~~= old(self).changed_concept(id, *c, markdown@)->Ok_0);
                        Ok(())
                    },
                    Ok(_) => Err(ChangeError::WrongKind),
                }
            } else {
                Err(ChangeError::UnknownField)
            }
        } else {
            Err(ChangeError::UnknownField)
        }
    }

    /// The store with the concept that `name` names, as such or in a
    /// representation, and that concept: what the name stands for, or a new
    /// concept of that name where it stands for nothing.
    pub open spec fn having_manifestation(&self, name: Seq<char>) -> (
        DataModel,
        ConceptRepresentationID,
    ) {
        match self.named_thing(name) {
            Some(id) => (self@, id),
            None => {
                let (d, c) = self@.having_concept(name);
                (d, ConceptRepresentationID { concept: c, representation: None })
            },
        }
    }

    /// The concept that `name` names, as such or in a representation; a new
    /// concept of that name where there is none.
    pub fn concept_representation_by_name_or_create(&mut self, name: &str) -> (id:
        ConceptRepresentationID)
        requires
            old(self).linked(),
        ensures
            final(self).wf(),
            final(self).activities == old(self).activities,
            final(self).representations == old(self).representations,
            final(self).courses == old(self).courses,
            (final(self)@, id) == old(self).having_manifestation(name@),
    {
        match self.concept_representation_to_id(name) {
            Some(id) => id,
            None => {
                let c = self.concept_by_name_or_create(name);
                ConceptRepresentationID { concept: c, representation: None }
            },
        }
    }

    /// The store after the change `c` to the activity `id`, or why the change
    /// cannot be made. The fields `long_description`, `name` and
    /// `external_url` take `markdown`, tidied, and the content, trimmed. The
    /// fields `prereq`, `taught` and `representation` relate the
    /// activity to the thing that the content names, made where it is
    /// missing. `Add` and `Remove` take the relationship (`new`, `prereq` or
    /// `uses`) from the HTML and the other thing from the identifier in the
    /// content; a concept as such that the activity teaches is removed in all
    /// its representations.
    pub open spec fn changed_activity(
        &self,
        id: ActivityID,
        c: Change,
        markdown: Seq<char>,
    ) -> Result<DataModel, ChangeError> {
        let i = id.0 as int;
        let me = self@.activities[i];
        if id.0 >= self.activities@.len() {
            Err(ChangeError::Missing)
        } else if c.field@ == "long_description"@ {
            Ok(
                self@.put_activity(
                    i,
                    ActivityModel { long_description: tidied(markdown), ..me },
                ),
            )
        } else if c.field@ == "name"@ {
            Ok(self@.put_activity(i, ActivityModel { name: trimmed(c.content@), ..me }))
        } else if c.field@ == "prereq"@ {
            let (d, other) = self.having_manifestation(c.content@);
            Ok(
                d.put_activity(
                    i,
                    ActivityModel { prereq_concepts: me.prereq_concepts.push(other), ..me },
                ),
            )
        } else if c.field@ == "taught"@ {
            let (d, other) = self.having_manifestation(c.content@);
            Ok(d.put_activity(i, ActivityModel { new_concepts: me.new_concepts.push(other), ..me }))
        } else if c.field@ == "representation"@ {
            let (d, rid) = self@.having_representation(c.content@);
            Ok(
                d.put_activity(
                    i,
                    ActivityModel { representations: me.representations.push(rid), ..me },
                ),
            )
        } else if c.field@ == "external_url"@ {
            Ok(
                self@.put_activity(
                    i,
                    ActivityModel { external_url: Some(trimmed(c.content@)), ..me },
                ),
            )
        } else if c.field@ == "Remove"@ || c.field@ == "Add"@ {
            let add = c.field@ == "Add"@;
            let new = c.html@ == "new"@;
            if new || c.html@ == "prereq"@ {
                match any_id(c.content@) {
                    Err(e) => Err(ChangeError::Parse(e)),
                    Ok(AnyID::Concept(other)) => {
                        let plain = ConceptRepresentationID { concept: other, representation: None };
                        Ok(
                            self@.put_activity(
                                i,
                                if add && new {
                                    ActivityModel { new_concepts: me.new_concepts.push(plain), ..me }
                                } else if add {
                                    ActivityModel {
                                        prereq_concepts: me.prereq_concepts.push(plain),
                                        ..me
                                    }
                                } else if new {
                                    ActivityModel {
                                        new_concepts: dropped_concept(me.new_concepts, other),
                                        ..me
                                    }
                                } else {
                                    ActivityModel {
                                        prereq_concepts: dropped(me.prereq_concepts, plain),
                                        ..me
                                    }
                                },
                            ),
                        )
                    },
                    Ok(AnyID::ConceptRepresentation(other)) => Ok(
                        self@.put_activity(
                            i,
                            if add && new {
                                ActivityModel { new_concepts: me.new_concepts.push(other), ..me }
                            } else if add {
                                ActivityModel {
                                    prereq_concepts: me.prereq_concepts.push(other),
                                    ..me
                                }
                            } else if new {
                                ActivityModel {
                                    new_concepts: dropped(me.new_concepts, other),
                                    ..me
                                }
                            } else {
                                ActivityModel {
                                    prereq_concepts: dropped(me.prereq_concepts, other),
                                    ..me
                                }
                            },
                        ),
                    ),
                    Ok(_) => Err(ChangeError::WrongKind),
                }
            } else if c.html@ == "uses"@ {
                match any_id(c.content@) {
                    Err(e) => Err(ChangeError::Parse(e)),
                    Ok(AnyID::Representation(rid)) => Ok(
                        self@.put_activity(
                            i,
                            ActivityModel {
                                representations: if add {
                                    me.representations.push(rid)
                                } else {
                                    dropped(me.representations, rid)
                                },
                                ..me
                            },
                        ),
                    ),
                    Ok(_) => Err(ChangeError::WrongKind),
                }
            } else {
                Err(ChangeError::UnknownField)
            }
        } else {
            Err(ChangeError::UnknownField)
        }
    }

    /// Makes the change `c` to the activity `id`: its `long_description`, its
    /// `name` or its `external_url`; a concept that is its `prereq` or that
    /// it has `taught`, a `representation`, each by name; a relationship with
    /// a thing, by identifier, added (`Add`) or removed (`Remove`).
    pub fn change_activity(&mut self, id: ActivityID, c: &Change, markdown: &str) -> (r: Result<
        (),
        ChangeError,
    >)
        requires
            old(self).linked(),
        ensures
            final(self).wf(),
            match old(self).changed_activity(id, *c, markdown@) {
                Ok(d) => r is Ok && final(self)@ == d,
                Err(e) => r == Err::<(), ChangeError>(e) && *final(self) == *old(self),
            },
    {
        if id.0 >= self.activities.len() {
            return Err(ChangeError::Missing);
        }
        let field = c.field.as_str();
        if same_text(field, "long_description") {
            let text = Markdown::tidy(markdown);
            let activity = self.get_mut(id);
            activity.long_description = text;
            assert(self@ =~~= old(self).changed_activity(id, *c, markdown@)->Ok_0);
            Ok(())
        } else if same_text(field, "name") {
            let activity = self.get_mut(id);
            activity.name = trim(c.content.as_str());
            assert(self@ =~~= old(self).changed_activity(id, *c, markdown@)->Ok_0);
            Ok(())
        } else if same_text(field, "prereq") {
            let other = self.concept_representation_by_name_or_create(c.content.as_str());
            let activity = self.get_mut(id);
            activity.prereq_concepts.push(other);
            assert(self@ =~~= old(self).changed_activity(id, *c, markdown@)->Ok_0);
            Ok(())
        } else if same_text(field, "taught") {
            let other = self.concept_representation_by_name_or_create(c.content.as_str());
            let activity = self.get_mut(id);
            activity.new_concepts.push(other);
            assert(self@ =~~= old(self).changed_activity(id, *c, markdown@)->Ok_0);
            Ok(())
        } else if same_text(field, "representation") {
            let rid = self.representation_by_name_or_create(c.content.as_str());
            let activity = self.get_mut(id);
            activity.representations.push(rid);
            assert(self@ =~~= old(self).changed_activity(id, *c, markdown@)->Ok_0);
            Ok(())
        } else if same_text(field, "external_url") {
            let activity = self.get_mut(id);
            activity.external_url = Some(trim(c.content.as_str()));
            assert(self@ =~~= old(self).changed_activity(id, *c, markdown@)->Ok_0);
            Ok(())
        } else if same_text(field, "Remove") || same_text(field, "Add") {
            let add = same_text(field, "Add");
            let what = c.html.as_str();
            let new = same_text(what, "new");
            let prereq = same_text(what, "prereq");
            if new || prereq {
                match other_thing(c.content.as_str()) {
                    Err(e) => Err(e),
                    Ok(AnyID::Concept(other)) => {
                        let plain = ConceptRepresentationID { concept: other, representation: None };
                        let activity = self.get_mut(id);
                        if add && new {
                            activity.new_concepts.push(plain);
                        } else if add {
                            activity.prereq_concepts.push(plain);
                        } else if new {
                            drop_concept_of(&mut activity.new_concepts, other);
                        } else {
                            drop_id(&mut activity.prereq_concepts, plain);
                        }
                        assert(self@ =~~= old(self).changed_activity(id, *c, markdown@)->Ok_0);
                        Ok(())
                    },
                    Ok(AnyID::ConceptRepresentation(other)) => {
                        let activity = self.get_mut(id);
                        if add && new {
                            activity.new_concepts.push(other);
                        } else if add {
                            activity.prereq_concepts.push(other);
                        } else if new {
                            drop_id(&mut activity.new_concepts, other);
                        } else {
                            drop_id(&mut activity.prereq_concepts, other);
                        }
                        assert(self@ =~~= old(self).changed_activity(id, *c, markdown@)->Ok_0);
                        Ok(())
                    },
                    Ok(_) => Err(ChangeError::WrongKind),
                }
            } else if same_text(what, "uses") {
                match other_thing(c.content.as_str()) {
                    Err(e) => Err(e),
                    Ok(AnyID::Representation(rid)) => {
                        let activity = self.get_mut(id);
                        if add {
                            activity.representations.push(rid);
                        } else {
                            drop_representation(&mut activity.representations, rid);
                        }
                        assert(self@ =~~= old(self).changed_activity(id, *c, markdown@)->Ok_0);
                        Ok(())
                    },
                    Ok(_) => Err(ChangeError::WrongKind),
                }
            } else {
                Err(ChangeError::UnknownField)
            }
        } else {
            Err(ChangeError::UnknownField)
        }
    }

    /// The store without the representation `id`: the last one is dropped,
    /// with the nameless ones before it; another one is left in its place
    /// without a name.
    pub open spec fn without_representation(&self, id: RepresentationID) -> DataModel {
        let reps = self@.representations;
        if id.0 + 1 == reps.len() {
            DataModel { representations: named_front(reps.drop_last()), ..self@ }
        } else {
            self@.put_representation(
                id.0 as int,
                RepresentationModel {
                    name: Seq::empty(),
                    description: Seq::empty(),
                    icon: IconModel::Html(Seq::empty()),
                    ..reps[id.0 as int]
                },
            )
        }
    }

    /// Takes the representation `id` out of the store: the last one is
    /// dropped, with the nameless ones before it; another one is left in its
    /// place without a name.
    pub fn remove_representation(&mut self, id: RepresentationID)
        requires
            old(self).wf(),
            id.0 < old(self).representations@.len(),
        ensures
            final(self).wf(),
            final(self).concepts == old(self).concepts,
            final(self).activities == old(self).activities,
            final(self).courses == old(self).courses,
            final(self)@ == old(self).without_representation(id),
    {
        if id.0 == self.representations.len() - 1 {
            self.representations.pop();
            assert(self.representations@ =~= old(self).representations@.take(id.0 as int));
            assert(self@.representations =~= old(self)@.representations.drop_last());
            while self.representations.len() > 0 && self.representations[self.representations.len()
                - 1].name.as_str().is_empty()
                invariant
                    self.representations@.len() <= id.0 < old(self).representations@.len(),
                    self.representations@ == old(self).representations@.take(
                        self.representations@.len() as int,
                    ),
                    named_front(self@.representations) == named_front(
                        old(self)@.representations.drop_last(),
                    ),
                    self.concepts == old(self).concepts,
                    self.activities == old(self).activities,
                    self.courses == old(self).courses,
                decreases self.representations.len(),
            {
                let ghost n = self.representations@.len();
                let ghost before = self@.representations;
                assert(self.representations@[n - 1] == old(self).representations@[n - 1]);
                self.representations.pop();
                assert(self.representations@ =~= old(self).representations@.take(n - 1));
                assert(self@.representations =~= before.drop_last());
            }
            assert(self@ =~~= old(self).without_representation(id));
        } else {
            let r = self.get_mut(id);
            r.name = String::new();
            r.icon = Icon::Html(String::new());
            r.description = Markdown(String::new());
            assert(self@ =~~= old(self).without_representation(id));
        }
    }

    /// The store after the change `c` to the representation `id`, or why the
    /// change cannot be made. The fields `icon`, `name` and `description`
    /// take the HTML, trimmed, the content, trimmed, and `markdown`, tidied.
    /// `Add`, with `used by` for the relationship, gives the concept
    /// that the content identifies the representation. `Remove` takes the
    /// representation out of the store (`exists`), or from the concept or the
    /// activity that the content identifies (`used by`).
    pub open spec fn changed_representation(
        &self,
        id: RepresentationID,
        c: Change,
        markdown: Seq<char>,
    ) -> Result<DataModel, ChangeError> {
        let i = id.0 as int;
        let me = self@.representations[i];
        if id.0 >= self.representations@.len() {
            Err(ChangeError::Missing)
        } else if c.field@ == "icon"@ {
            Ok(
                self@.put_representation(
                    i,
                    RepresentationModel { icon: IconModel::Html(trimmed(c.html@)), ..me },
                ),
            )
        } else if c.field@ == "name"@ {
            Ok(
                self@.put_representation(
                    i,
                    RepresentationModel { name: trimmed(c.content@), ..me },
                ),
            )
        } else if c.field@ == "description"@ {
            Ok(
                self@.put_representation(
                    i,
                    RepresentationModel { description: tidied(markdown), ..me },
                ),
            )
        } else if c.field@ == "Add"@ {
            if c.html@ != "used by"@ {
                Err(ChangeError::UnknownField)
            } else {
                match any_id(c.content@) {
                    Err(e) => Err(ChangeError::Parse(e)),
                    Ok(AnyID::Concept(child)) => {
                        let it = self@.concepts[child.0 as int];
                        if child.0 >= self.concepts@.len() {
                            Err(ChangeError::Missing)
                        } else {
                            Ok(
                                self@.put_concept(
                                    child.0 as int,
                                    ConceptModel {
                                        representations: it.representations.insert(id.0, blank()),
                                        ..it
                                    },
                                ),
                            )
                        }
                    },
                    Ok(_) => Err(ChangeError::WrongKind),
                }
            }
        } else if c.field@ == "Remove"@ {
            if c.html@ == "exists"@ {
                Ok(self.without_representation(id))
            } else if c.html@ == "used by"@ {
                match any_id(c.content@) {
                    Err(e) => Err(ChangeError::Parse(e)),
                    Ok(AnyID::Concept(child)) => {
                        let it = self@.concepts[child.0 as int];
                        if child.0 >= self.concepts@.len() {
                            Err(ChangeError::Missing)
                        } else {
                            Ok(
                                self@.put_concept(
                                    child.0 as int,
                                    ConceptModel {
                                        representations: it.representations.remove(id.0),
                                        ..it
                                    },
                                ),
                            )
                        }
                    },
                    Ok(AnyID::Activity(child)) => {
                        let it = self@.activities[child.0 as int];
                        if child.0 >= self.activities@.len() {
                            Err(ChangeError::Missing)
                        } else {
                            Ok(
                                self@.put_activity(
                                    child.0 as int,
                                    ActivityModel {
                                        representations: dropped(it.representations, id),
                                        ..it
                                    },
                                ),
                            )
                        }
                    },
                    Ok(_) => Err(ChangeError::WrongKind),
                }
            } else {
                Err(ChangeError::UnknownField)
            }
        } else {
            Err(ChangeError::UnknownField)
        }
    }

    /// Makes the change `c` to the representation `id`: its `icon`, its
    /// `name` or its `description`; a concept that it is `used by` added
    /// (`Add`); the representation itself (`exists`), or a concept or an
    /// activity that it is `used by`, removed (`Remove`).
    pub fn change_representation(
        &mut self,
        id: RepresentationID,
        c: &Change,
        markdown: &str,
    ) -> (r: Result<
        (),
        ChangeError,
    >)
        requires
            old(self).wf(),
        ensures
            final(self).wf(),
            match old(self).changed_representation(id, *c, markdown@) {
                Ok(d) => r is Ok && final(self)@ == d,
                Err(e) => r == Err::<(), ChangeError>(e) && *final(self) == *old(self),
            },
    {
        if id.0 >= self.representations.len() {
            return Err(ChangeError::Missing);
        }
        let field = c.field.as_str();
        if same_text(field, "icon") {
            let r = self.get_mut(id);
            r.icon = Icon::Html(trim(c.html.as_str()));
            assert(self@ =~~= old(self).changed_representation(id, *c, markdown@)->Ok_0);
            Ok(())
        } else if same_text(field, "name") {
            let r = self.get_mut(id);
            r.name = trim(c.content.as_str());
            assert(self@ =~~= old(self).changed_representation(id, *c, markdown@)->Ok_0);
            Ok(())
        } else if same_text(field, "description") {
            let text = Markdown::tidy(markdown);
            let r = self.get_mut(id);
            r.description = text;
            assert(self@ =~~= old(self).changed_representation(id, *c, markdown@)->Ok_0);
            Ok(())
        } else if same_text(field, "Add") {
            if !same_text(c.html.as_str(), "used by") {
                return Err(ChangeError::UnknownField);
            }
            match other_thing(c.content.as_str()) {
                Err(e) => Err(e),
                Ok(AnyID::Concept(child)) => {
                    if child.0 >= self.concepts.len() {
                        return Err(ChangeError::Missing);
                    }
                    let concept = self.get_mut(child);
                    concept.add_representation(id);
                    assert(self@ =~~= old(self).changed_representation(id, *c, markdown@)->Ok_0);
                    Ok(())
                },
                Ok(_) => Err(ChangeError::WrongKind),
            }
        } else if same_text(field, "Remove") {
            if same_text(c.html.as_str(), "exists") {
                self.remove_representation(id);
                assert(self@ =~~= old(self).changed_representation(id, *c, markdown@)->Ok_0);
                Ok(())
            } else if same_text(c.html.as_str(), "used by") {
                match other_thing(c.content.as_str()) {
                    Err(e) => Err(e),
                    Ok(AnyID::Concept(child)) => {
                        if child.0 >= self.concepts.len() {
                            return Err(ChangeError::Missing);
                        }
                        let concept = self.get_mut(child);
                        concept.representations.remove(&id.0);
                        assert(self@
                            =~~= old(self).changed_representation(id, *c, markdown@)->Ok_0);
                        Ok(())
                    },
                    Ok(AnyID::Activity(child)) => {
                        if child.0 >= self.activities.len() {
                            return Err(ChangeError::Missing);
                        }
                        let activity = self.get_mut(child);
                        drop_representation(&mut activity.representations, id);
                        assert(self@
                            =~~= old(self).changed_representation(id, *c, markdown@)->Ok_0);
                        Ok(())
                    },
                    Ok(_) => Err(ChangeError::WrongKind),
                }
            } else {
                Err(ChangeError::UnknownField)
            }
        } else {
            Err(ChangeError::UnknownField)
        }
    }

    /// The change `c` reads the Markdown that its HTML was converted to: it
    /// sets the long description of a concept, of a concept in a
    /// representation that it has, or of an activity, or the description of a
    /// representation, and the store holds the thing.
    pub open spec fn asks_markdown(&self, c: Change) -> bool {
        match any_id(c.id@) {
            Ok(AnyID::Concept(id)) => id.0 < self.concepts@.len() && c.field@
                == "long_description"@,
            Ok(AnyID::ConceptRepresentation(id)) => {
                &&& id.representation is Some
                &&& id.concept.0 < self.concepts@.len()
                &&& self.concepts@[id.concept.0 as int].representations@.contains_key(
                    (id.representation->0).0,
                )
                &&& c.field@ == "long_description"@
            },
            Ok(AnyID::Activity(id)) => id.0 < self.activities@.len() && c.field@
                == "long_description"@,
            Ok(AnyID::Representation(id)) => id.0 < self.representations@.len() && c.field@
                == "description"@,
            _ => false,
        }
    }

    /// Whether the change `c` reads the Markdown that its HTML was converted
    /// to. Where it does not, the HTML need not be converted.
    pub fn wants_markdown(&self, c: &Change) -> (b: bool)
        ensures
            b == self.asks_markdown(*c),
    {
        match other_thing(c.id.as_str()) {
            Ok(AnyID::Concept(id)) => id.0 < self.concepts.len() && same_text(
                c.field.as_str(),
                "long_description",
            ),
            Ok(AnyID::ConceptRepresentation(id)) => match id.representation {
                Some(rid) => id.concept.0 < self.concepts.len()
                    && self.concepts[id.concept.0].representations.contains_key(&rid.0)
                    && same_text(c.field.as_str(), "long_description"),
                None => false,
            },
            Ok(AnyID::Activity(id)) => id.0 < self.activities.len() && same_text(
                c.field.as_str(),
                "long_description",
            ),
            Ok(AnyID::Representation(id)) => id.0 < self.representations.len() && same_text(
                c.field.as_str(),
                "description",
            ),
            _ => false,
        }
    }

    /// A change that does not read the Markdown is the same change, whatever
    /// the Markdown.
    pub proof fn lemma_markdown_unread(&self, c: Change, a: Seq<char>, b: Seq<char>)
        requires
            !self.asks_markdown(c),
        ensures
            self.changed(c, a) == self.changed(c, b),
    {
    }

    /// The store after the change `c`, or why the change cannot be made: the
    /// change to the thing that `c.id` identifies. `markdown` is what the
    /// HTML of the change was converted to.
    pub open spec fn changed(&self, c: Change, markdown: Seq<char>) -> Result<
        DataModel,
        ChangeError,
    > {
        match any_id(c.id@) {
            Err(e) => Err(ChangeError::Parse(e)),
            Ok(AnyID::Course(id)) => self.changed_course(id, c),
            Ok(AnyID::ConceptRepresentation(id)) => self.changed_manifestation(id, c, markdown),
            Ok(AnyID::Concept(id)) => self.changed_concept(id, c, markdown),
            Ok(AnyID::Activity(id)) => self.changed_activity(id, c, markdown),
            Ok(AnyID::Representation(id)) => self.changed_representation(id, c, markdown),
        }
    }

    /// Makes the change `c`: to the field `c.field` of the thing `c.id`, with
    /// the text `c.content` or the HTML `c.html`. Where the field is `Add` or
    /// `Remove`, `c.html` names the relationship and `c.content` the other
    /// thing. A change that cannot be made leaves the store as it is.
    ///
    /// `markdown` is the Markdown that a converter has made of `c.html`. It
    /// is read only where the change asks for it (see `wants_markdown`).
    pub fn change(&mut self, c: &Change, markdown: &str) -> (r: Result<(), ChangeError>)
        requires
            old(self).linked(),
        ensures
            final(self).wf(),
            match old(self).changed(*c, markdown@) {
                Ok(d) => r is Ok && final(self)@ == d,
                Err(e) => r == Err::<(), ChangeError>(e) && *final(self) == *old(self),
            },
    {
        match other_thing(c.id.as_str()) {
            Err(e) => Err(e),
            Ok(AnyID::Course(id)) => self.change_course(id, c),
            Ok(AnyID::ConceptRepresentation(id)) => self.change_manifestation(id, c, markdown),
            Ok(AnyID::Concept(id)) => self.change_concept(id, c, markdown),
            Ok(AnyID::Activity(id)) => self.change_activity(id, c, markdown),
            Ok(AnyID::Representation(id)) => self.change_representation(id, c, markdown),
        }
    }

    /// The store with the figure `filename` noted for the thing `id`, or why
    /// it cannot be: the icon of a representation (below `figs/`), or the
    /// figure of a concept, of an activity, or of a concept in a
    /// representation; a concept that is not in the representation is left as
    /// it is. A course takes no figure.
    pub open spec fn with_figure(&self, id: AnyID, filename: Seq<char>) -> Result<
        DataModel,
        ChangeError,
    > {
        match id {
            AnyID::Representation(rid) => if rid.0 >= self.representations@.len() {
                Err(ChangeError::Missing)
            } else {
                Ok(
                    self@.put_representation(
                        rid.0 as int,
                        RepresentationModel {
                            icon: IconModel::Fig("figs/"@ + filename),
                            ..self@.representations[rid.0 as int]
                        },
                    ),
                )
            },
            AnyID::Concept(cid) => if cid.0 >= self.concepts@.len() {
                Err(ChangeError::Missing)
            } else {
                Ok(
                    self@.put_concept(
                        cid.0 as int,
                        ConceptModel { figure: Some(filename), ..self@.concepts[cid.0 as int] },
                    ),
                )
            },
            AnyID::Activity(aid) => if aid.0 >= self.activities@.len() {
                Err(ChangeError::Missing)
            } else {
                Ok(
                    self@.put_activity(
                        aid.0 as int,
                        ActivityModel { figure: Some(filename), ..self@.activities[aid.0 as int] },
                    ),
                )
            },
            AnyID::ConceptRepresentation(crid) => match crid.representation {
                None => Err(ChangeError::Missing),
                Some(rid) => {
                    let i = crid.concept.0 as int;
                    let concept = self@.concepts[i];
                    if crid.concept.0 >= self.concepts@.len() {
                        Err(ChangeError::Missing)
                    } else if concept.representations.contains_key(rid.0) {
                        Ok(
                            self@.put_concept(
                                i,
                                ConceptModel {
                                    representations: concept.representations.insert(
                                        rid.0,
                                        ManifestationModel {
                                            figure: Some(filename),
                                            ..concept.representations[rid.0]
                                        },
                                    ),
                                    ..concept
                                },
                            ),
                        )
                    } else {
                        Ok(self@)
                    }
                },
            },
            AnyID::Course(_) => Err(ChangeError::WrongKind),
        }
    }

    /// Takes note of the figure `filename` that was uploaded for the thing
    /// `id`: the icon of a representation, or the figure of a concept, of an
    /// activity, or of a concept in a representation that it has. A course
    /// takes no figure.
    pub fn uploaded_figure(&mut self, id: AnyID, filename: &str) -> (r: Result<(), ChangeError>)
        requires
            old(self).wf(),
        ensures
            final(self).wf(),
            match old(self).with_figure(id, filename@) {
                Ok(d) => r is Ok && final(self)@ == d,
                Err(e) => r == Err::<(), ChangeError>(e) && *final(self) == *old(self),
            },
    {
        match id {
            AnyID::Representation(rid) => {
                if rid.0 >= self.representations.len() {
                    return Err(ChangeError::Missing);
                }
                let icon = Icon::Fig(crate::text::concat("figs/", filename));
                let r = self.get_mut(rid);
                r.icon = icon;
                assert(self@ =~~= old(self).with_figure(id, filename@)->Ok_0);
                Ok(())
            },
            AnyID::Concept(cid) => {
                if cid.0 >= self.concepts.len() {
                    return Err(ChangeError::Missing);
                }
                let c = self.get_mut(cid);
                c.figure = Some(filename.to_owned());
                assert(self@ =~~= old(self).with_figure(id, filename@)->Ok_0);
                Ok(())
            },
            AnyID::Activity(aid) => {
                if aid.0 >= self.activities.len() {
                    return Err(ChangeError::Missing);
                }
                let a = self.get_mut(aid);
                a.figure = Some(filename.to_owned());
                assert(self@ =~~= old(self).with_figure(id, filename@)->Ok_0);
                Ok(())
            },
            AnyID::ConceptRepresentation(crid) => {
                let rid = match crid.representation {
                    Some(rid) => rid,
                    None => {
                        return Err(ChangeError::Missing);
                    },
                };
                if crid.concept.0 >= self.concepts.len() {
                    return Err(ChangeError::Missing);
                }
                let there = match self.concepts[crid.concept.0].representations.get(&rid.0) {
                    Some(rr) => Some(rr.clone()),
                    None => None,
                };
                match there {
                    Some(mut rr) => {
                        rr.figure = Some(filename.to_owned());
                        let c = self.get_mut(crid.concept);
                        c.representations.insert(rid.0, rr);
                    },
                    None => {},
                }
                assert(self@ =~~= old(self).with_figure(id, filename@)->Ok_0);
                Ok(())
            },
            AnyID::Course(_) => Err(ChangeError::WrongKind),
        }
    }
}

} // verus!
