//! The views of the stored things: each with its relationships filled in, as
//! a page shows it.

use crate::activity::Activity;
use crate::concept::{keys_of, ConceptRepresentationView};
use crate::data::ConceptRepresentationChoice;
use crate::representation::Representation;
use crate::text::{has_text, insert_text, texts_ascending};
use crate::data::{holds_activity, ActivityGroup, Child, Data};
use crate::order::{lemma_sorted_by_mapped, sort_by_keys, sorted_by};
use crate::ids::{ActivityID, ConceptID, ConceptRepresentationID, CourseID, RepresentationID};
use crate::text::{concat, lowercase, same_text, to_lowercase};
use vstd::prelude::*;

verus! {

/// Whether `id` is among `ids`.
pub fn holds_concept(ids: &Vec<ConceptRepresentationID>, id: ConceptRepresentationID) -> (b: bool)
    ensures
        b == ids@.contains(id),
{
    let mut i: usize = 0;
    while i < ids.len()
        invariant
            i <= ids.len(),
            forall|j: int| 0 <= j < i ==> ids@[j] != id,
        decreases ids.len() - i,
    {
        if ids[i] == id {
            return true;
        }
        i += 1;
    }
    false
}

/// Whether `id` is among `ids`.
pub fn holds_representation(ids: &Vec<RepresentationID>, id: RepresentationID) -> (b: bool)
    ensures
        b == ids@.contains(id),
{
    let mut i: usize = 0;
    while i < ids.len()
        invariant
            i <= ids.len(),
            forall|j: int| 0 <= j < i ==> ids@[j] != id,
        decreases ids.len() - i,
    {
        if ids[i] == id {
            return true;
        }
        i += 1;
    }
    false
}

impl Data {
    /// `id` names a concept of the store, and where it names a
    /// representation, one of the store that the concept has.
    pub open spec fn known(&self, id: ConceptRepresentationID) -> bool {
        &&& id.concept.0 < self.concepts@.len()
        &&& id.representation matches Some(rid) ==> rid.0 < self.representations@.len()
            && self.concepts@[id.concept.0 as int].representations@.contains_key(rid.0)
    }

    /// Every identifier that a stored thing holds names a stored thing.
    pub open spec fn linked(&self) -> bool {
        &&& self.wf()
        &&& forall|i: int, k: int|
            0 <= i < self.concepts@.len() && 0 <= k < self.concepts@[i].prereq_concepts@.len() ==> (
            #[trigger] self.concepts@[i].prereq_concepts@[k]).0 < self.concepts@.len()
        &&& forall|i: int, r: usize|
            0 <= i < self.concepts@.len()
                && #[trigger] self.concepts@[i].representations@.contains_key(
                r,
            ) ==> r < self.representations@.len()
        &&& forall|i: int, k: int|
            0 <= i < self.activities@.len() && 0 <= k < self.activities@[i].prereq_concepts@.len()
                ==> self.known(#[trigger] self.activities@[i].prereq_concepts@[k])
        &&& forall|i: int, k: int|
            0 <= i < self.activities@.len() && 0 <= k < self.activities@[i].new_concepts@.len()
                ==> self.known(#[trigger] self.activities@[i].new_concepts@[k])
        &&& forall|i: int, k: int|
            0 <= i < self.activities@.len() && 0 <= k < self.activities@[i].representations@.len()
                ==> (#[trigger] self.activities@[i].representations@[k]).0
                < self.representations@.len()
        &&& forall|i: int, k: int|
            0 <= i < self.courses@.len() && 0 <= k < self.courses@[i].activities@.len() ==> (
            #[trigger] self.courses@[i].activities@[k]).0 < self.activities@.len()
    }

    /// The name that stands for `id`: that of the concept; in a
    /// representation, the name that the concept has there, or where it has
    /// none, the concept's name, ` using ` and the representation's name in
    /// lowercase.
    pub open spec fn name_of(&self, id: ConceptRepresentationID) -> Seq<char> {
        let c = self.concepts@[id.concept.0 as int];
        match id.representation {
            Some(rid) => {
                let n = c.representations@[rid.0].name@;
                if n.len() == 0 {
                    c.name@ + " using "@ + lowercase(self.representations@[rid.0 as int].name@)
                } else {
                    n
                }
            },
            None => c.name@,
        }
    }

    /// The name that stands for `id`.
    pub fn name_it(&self, id: ConceptRepresentationID) -> (name: String)
        requires
            self.known(id),
        ensures
            name@ == self.name_of(id),
    {
        let c = &self.concepts[id.concept.0];
        match id.representation {
            Some(rid) => {
                match c.representations.get(&rid.0) {
                    Some(rr) => {
                        if rr.name.as_str().is_empty() {
                            let head = concat(c.name.as_str(), " using ");
                            let low = to_lowercase(self.representations[rid.0].name.as_str());
                            concat(head.as_str(), low.as_str())
                        } else {
                            rr.name.clone()
                        }
                    },
                    None => c.name.clone(),
                }
            },
            None => c.name.clone(),
        }
    }

    /// Some activity of the course teaches `nid`.
    pub open spec fn course_teaches(&self, nid: ConceptRepresentationID, course: int) -> bool {
        exists|k: int|
            0 <= k < self.courses@[course].activities@.len() && self.activities@[(
            #[trigger] self.courses@[course].activities@[k]).0 as int].new_concepts@.contains(nid)
    }

    /// Whether some activity of the course `rid` teaches `nid`.
    pub fn course_is_for_concept(&self, nid: ConceptRepresentationID, rid: CourseID) -> (b: bool)
        requires
            self.linked(),
            rid.0 < self.courses@.len(),
        ensures
            b == self.course_teaches(nid, rid.0 as int),
    {
        let acts = &self.courses[rid.0].activities;
        let mut k: usize = 0;
        while k < acts.len()
            invariant
                k <= acts.len(),
                self.linked(),
                rid.0 < self.courses@.len(),
                acts@ == self.courses@[rid.0 as int].activities@,
                forall|j: int|
                    0 <= j < k ==>
                        !self.activities@[(#[trigger] acts@[j]).0 as int].new_concepts@.contains(
                        nid,
                    ),
            decreases acts.len() - k,
        {
            let a = acts[k];
            assert(self.courses@[rid.0 as int].activities@[k as int] == a);
            if holds_concept(&self.activities[a.0].new_concepts, nid) {
                return true;
            }
            k += 1;
        }
        false
    }

    /// The identifiers of those of the first `n` courses that teach `nid`.
    pub open spec fn courses_teaching(&self, nid: ConceptRepresentationID, n: int) -> Seq<CourseID>
        decreases n,
    {
        if n <= 0 {
            Seq::empty()
        } else if self.course_teaches(nid, n - 1) {
            self.courses_teaching(nid, n - 1).push(self.courses@[n - 1].id)
        } else {
            self.courses_teaching(nid, n - 1)
        }
    }

    /// The courses that teach the concept `id`.
    pub fn courses_for_concept(&self, id: ConceptID) -> (out: Vec<CourseID>)
        requires
            self.linked(),
        ensures
            out@ == self.courses_teaching(
                ConceptRepresentationID { concept: id, representation: None },
                self.courses@.len() as int,
            ),
    {
        let nid = ConceptRepresentationID { concept: id, representation: None };
        let mut out: Vec<CourseID> = Vec::new();
        let mut i: usize = 0;
        while i < self.courses.len()
            invariant
                i <= self.courses.len(),
                self.linked(),
                out@ == self.courses_teaching(nid, i as int),
            decreases self.courses.len() - i,
        {
            let cid = self.courses[i].id;
            assert(cid.0 == i);
            if self.course_is_for_concept(nid, cid) {
                out.push(cid);
            }
            i += 1;
        }
        out
    }

    /// Some activity uses the representation `id`, or some concept has it.
    pub open spec fn uses(&self, id: RepresentationID) -> bool {
        ||| exists|i: int|
            0 <= i < self.activities@.len()
                && (#[trigger] self.activities@[i]).representations@.contains(
                id,
            )
        ||| exists|i: int|
            0 <= i < self.concepts@.len()
                && (#[trigger] self.concepts@[i]).representations@.contains_key(
                id.0,
            )
    }

    /// Whether some activity uses the representation `id`, or some concept has
    /// it.
    pub fn representation_used(&self, id: RepresentationID) -> (b: bool)
        ensures
            b == self.uses(id),
    {
        let mut i: usize = 0;
        while i < self.activities.len()
            invariant
                i <= self.activities.len(),
                forall|j: int|
                    0 <= j < i ==> !(#[trigger] self.activities@[j]).representations@.contains(id),
            decreases self.activities.len() - i,
        {
            if holds_representation(&self.activities[i].representations, id) {
                return true;
            }
            i += 1;
        }
        let mut k: usize = 0;
        while k < self.concepts.len()
            invariant
                k <= self.concepts.len(),
                forall|j: int|
                    0 <= j < self.activities@.len() ==> !(
                    #[trigger] self.activities@[j]).representations@.contains(id),
                forall|j: int|
                    0 <= j < k ==> !(#[trigger] self.concepts@[j]).representations@.contains_key(
                        id.0,
                    ),
            decreases self.concepts.len() - k,
        {
            if self.concepts[k].representations.contains_key(&id.0) {
                return true;
            }
            k += 1;
        }
        false
    }
}

impl Data {
    /// Among the first `n` activities: the places of those that teach `id`.
    pub open spec fn teachers(&self, id: ConceptRepresentationID, n: int) -> Seq<int>
        decreases n,
    {
        if n <= 0 {
            Seq::empty()
        } else if self.activities@[n - 1].new_concepts@.contains(id) {
            self.teachers(id, n - 1).push(n - 1)
        } else {
            self.teachers(id, n - 1)
        }
    }

    /// `copies` are the activities at `places`, in that order.
    pub open spec fn copies_of(&self, copies: Seq<Activity>, places: Seq<int>) -> bool {
        &&& copies.len() == places.len()
        &&& forall|k: int|
            0 <= k < copies.len() ==> (#[trigger] copies[k]).same(&self.activities@[places[k]])
    }

    /// The activities that teach `id`.
    pub fn taught_by(&self, id: ConceptRepresentationID) -> (out: Vec<Activity>)
        ensures
            self.copies_of(out@, self.teachers(id, self.activities@.len() as int)),
    {
        let mut out: Vec<Activity> = Vec::new();
        let mut i: usize = 0;
        while i < self.activities.len()
            invariant
                i <= self.activities.len(),
                self.copies_of(out@, self.teachers(id, i as int)),
            decreases self.activities.len() - i,
        {
            if holds_concept(&self.activities[i].new_concepts, id) {
                out.push(self.activities[i].clone());
            }
            i += 1;
        }
        out
    }

    /// The places of the teachers lie in the store, in rising order.
    pub proof fn lemma_teachers(&self, id: ConceptRepresentationID, n: int)
        requires
            0 <= n <= self.activities@.len(),
        ensures
            forall|k: int|
                0 <= k < self.teachers(id, n).len() ==> 0 <= (#[trigger] self.teachers(id, n)[k])
                    < n && self.activities@[self.teachers(id, n)[k]].new_concepts@.contains(id),
            forall|i: int|
                0 <= i < n && self.activities@[i].new_concepts@.contains(id) ==> self.teachers(
                    id,
                    n,
                ).contains(i),
        decreases n,
    {
        if n > 0 {
            self.lemma_teachers(id, n - 1);
            let t0 = self.teachers(id, n - 1);
            let t = self.teachers(id, n);
            assert forall|i: int|
                0 <= i < n && self.activities@[i].new_concepts@.contains(id) implies t.contains(
                i,
            ) by {
                if i < n - 1 {
                    assert(t0.contains(i));
                    let k = choose|k: int| 0 <= k < t0.len() && t0[k] == i;
                    assert(t[k] == i);
                } else {
                    assert(t[t.len() - 1] == i);
                }
            }
        }
    }

    /// What is shown of `id` inside the thing `parent`, whose relationship
    /// `field` it can be removed from.
    pub fn concept_representation_view(
        &self,
        parent: String,
        field: &str,
        id: ConceptRepresentationID,
    ) -> (r: Child<ConceptRepresentationView>)
        requires
            self.known(id),
        ensures
            r.parentid == parent,
            r.verb@ == "Remove"@,
            r.relationship@ == field@,
            !r.show_detail,
            r.extra_class@.len() == 0,
            r.html_id is None,
            r.child.id == id,
            r.child.summary_name@ == self.name_of(id),
            self.copies_of(r.child.activities@, self.teachers(id, self.activities@.len() as int)),
            match id.representation {
                Some(rid) => {
                    let rr = self.concepts@[id.concept.0 as int].representations@[rid.0];
                    &&& r.child.representation == Some(self.representations@[rid.0 as int])
                    &&& r.child.name == rr.name
                    &&& r.child.long_description == rr.long_description
                    &&& r.child.figure == rr.figure
                },
                None => {
                    let c = self.concepts@[id.concept.0 as int];
                    &&& r.child.representation is None
                    &&& r.child.name == c.name
                    &&& r.child.long_description == c.long_description
                    &&& r.child.figure == c.figure
                },
            },
    {
        let c = &self.concepts[id.concept.0];
        let activities = self.taught_by(id);
        let summary_name = self.name_it(id);
        let view = match id.representation {
            Some(rid) => {
                match c.representations.get(&rid.0) {
                    Some(rr) => ConceptRepresentationView {
                        id,
                        representation: Some(self.representations[rid.0].clone()),
                        activities,
                        name: rr.name.clone(),
                        summary_name,
                        long_description: rr.long_description.clone(),
                        figure: rr.figure.clone(),
                    },
                    None => ConceptRepresentationView {
                        id,
                        representation: None,
                        activities,
                        name: c.name.clone(),
                        summary_name,
                        long_description: c.long_description.clone(),
                        figure: c.figure.clone(),
                    },
                }
            },
            None => ConceptRepresentationView {
                id,
                representation: None,
                activities,
                name: c.name.clone(),
                summary_name,
                long_description: c.long_description.clone(),
                figure: c.figure.clone(),
            },
        };
        Child::remove(parent, field, view)
    }
}

/// What a group is, going by identifiers: its activity, the concepts in it,
/// and the concepts that could be added to it.
pub struct GroupShape {
    pub activity: Option<ActivityID>,
    pub concepts: Seq<ConceptRepresentationID>,
    pub hints: Seq<ConceptRepresentationID>,
}

/// The identifiers of the concepts shown.
pub open spec fn ids_of(children: Seq<Child<ConceptRepresentationView>>) -> Seq<
    ConceptRepresentationID,
> {
    Seq::new(children.len(), |i: int| children[i].child.id)
}

/// What the group is, going by identifiers.
pub open spec fn shape(g: ActivityGroup) -> GroupShape {
    GroupShape {
        activity: match g.activity {
            Some(a) => Some(a.child.id),
            None => None,
        },
        concepts: ids_of(g.concepts@),
        hints: ids_of(g.hint_concepts@),
    }
}

/// What the groups are, going by identifiers.
pub open spec fn shapes(groups: Seq<ActivityGroup>) -> Seq<GroupShape> {
    Seq::new(groups.len(), |i: int| shape(groups[i]))
}

/// `s` without `cid`.
pub open spec fn without(s: Seq<ConceptRepresentationID>, cid: ConceptRepresentationID) -> Seq<
    ConceptRepresentationID,
>
    decreases s.len(),
{
    if s.len() == 0 {
        Seq::empty()
    } else if s.last() == cid {
        without(s.drop_last(), cid)
    } else {
        without(s.drop_last(), cid).push(s.last())
    }
}

/// Among the first `n` groups: the first whose activity is one of `acts`.
pub open spec fn first_group(groups: Seq<GroupShape>, acts: Seq<ActivityID>, n: int) -> Option<int>
    decreases n,
{
    if n <= 0 {
        None
    } else {
        match first_group(groups, acts, n - 1) {
            Some(k) => Some(k),
            None => match groups[n - 1].activity {
                Some(a) => if acts.contains(a) {
                    Some(n - 1)
                } else {
                    None
                },
                None => None,
            },
        }
    }
}

/// What orders identifiers of equal concept: none before any
/// representation, the representations by their numbers.
pub open spec fn minor_key(id: ConceptRepresentationID) -> u128 {
    match id.representation {
        None => 0,
        Some(r) => (r.0 + 1) as u128,
    }
}

/// The minor keys of the identifiers.
pub open spec fn minor_keys(ids: Seq<ConceptRepresentationID>) -> Seq<u128> {
    Seq::new(ids.len(), |i: int| minor_key(ids[i]))
}

/// The numbers of the concepts of the identifiers.
pub open spec fn major_keys(ids: Seq<ConceptRepresentationID>) -> Seq<u128> {
    Seq::new(ids.len(), |i: int| ids[i].concept.0 as u128)
}

/// The identifiers in order: by concept, and those of one concept by
/// representation, none first. Equal ones keep their order.
pub open spec fn sorted_ids(ids: Seq<ConceptRepresentationID>) -> Seq<ConceptRepresentationID> {
    let a = sorted_by(ids, minor_keys(ids));
    sorted_by(a, major_keys(a))
}

/// What orders groups: the number of the activity; 100000 without one.
pub open spec fn group_key(g: GroupShape) -> u128 {
    match g.activity {
        Some(a) => a.0 as u128,
        None => 100000,
    }
}

/// The keys of the groups.
pub open spec fn group_keys(groups: Seq<GroupShape>) -> Seq<u128> {
    Seq::new(groups.len(), |i: int| group_key(groups[i]))
}

/// The group with its concepts in order.
pub open spec fn tidy(g: GroupShape) -> GroupShape {
    GroupShape { activity: g.activity, concepts: sorted_ids(g.concepts), hints: g.hints }
}

/// The groups in the order of their keys, each with its concepts in order.
pub open spec fn arranged(groups: Seq<GroupShape>) -> Seq<GroupShape> {
    let s = sorted_by(groups, group_keys(groups));
    Seq::new(s.len(), |i: int| tidy(s[i]))
}

/// The concepts in the order of their identifiers.
pub fn sort_concepts(v: Vec<Child<ConceptRepresentationView>>) -> (out: Vec<
    Child<ConceptRepresentationView>,
>)
    ensures
        ids_of(out@) == sorted_ids(ids_of(v@)),
{
    let ghost f = |c: Child<ConceptRepresentationView>| c.child.id;
    let ghost v0 = v@;
    let mut minor: Vec<u128> = Vec::new();
    let mut i: usize = 0;
    while i < v.len()
        invariant
            i <= v.len(),
            minor@.len() == i,
            forall|j: int| 0 <= j < i ==> minor@[j] == minor_key(v@[j].child.id),
        decreases v.len() - i,
    {
        let key: u128 = match v[i].child.id.representation {
            None => 0,
            Some(r) => r.0 as u128 + 1,
        };
        minor.push(key);
        i += 1;
    }
    assert(minor@ =~= minor_keys(ids_of(v0)));
    let a = sort_by_keys(v, &minor);
    let ghost a0 = a@;
    let mut major: Vec<u128> = Vec::new();
    let mut k: usize = 0;
    while k < a.len()
        invariant
            k <= a.len(),
            major@.len() == k,
            forall|j: int| 0 <= j < k ==> major@[j] == a@[j].child.id.concept.0 as u128,
        decreases a.len() - k,
    {
        major.push(a[k].child.id.concept.0 as u128);
        k += 1;
    }
    let out = sort_by_keys(a, &major);
    proof {
        lemma_sorted_by_mapped(v0, minor@, f);
        lemma_sorted_by_mapped(a0, major@, f);
        assert(v0.map_values(f) =~= ids_of(v0));
        assert(a0.map_values(f) =~= ids_of(a0));
        assert(out@.map_values(f) =~= ids_of(out@));
        assert(major@ =~= major_keys(ids_of(a0)));
    }
    out
}

/// The concepts without those of the identifier `cid`.
pub fn drop_concept(v: Vec<Child<ConceptRepresentationView>>, cid: ConceptRepresentationID) -> (out:
    Vec<Child<ConceptRepresentationView>>)
    ensures
        ids_of(out@) == without(ids_of(v@), cid),
{
    let ghost v0 = v@;
    let mut v = v;
    let mut kept: Vec<Child<ConceptRepresentationView>> = Vec::new();
    // from the end: what is kept comes out in reverse
    while v.len() > 0
        invariant
            v@.len() <= v0.len(),
            v@ == v0.take(v@.len() as int),
            ids_of(kept@).reverse() == without(ids_of(v0.skip(v@.len() as int)), cid),
        decreases v.len(),
    {
        let ghost n = v@.len() as int;
        let ghost before = ids_of(kept@);
        match v.pop() {
            Some(c) => {
                proof {
                    let tail = ids_of(v0.skip(n));
                    let more = ids_of(v0.skip(n - 1));
                    assert(more =~= seq![c.child.id] + tail);
                    lemma_without_front(tail, c.child.id, cid);
                }
                if c.child.id != cid {
                    kept.push(c);
                    assert(ids_of(kept@) =~= before.push(c.child.id));
                    assert(ids_of(kept@).reverse() =~= seq![c.child.id] + before.reverse());
                }
                assert(v@ =~= v0.take(n - 1));
            },
            None => {},
        }
    }
    assert(v0.skip(0) =~= v0);
    let mut out: Vec<Child<ConceptRepresentationView>> = Vec::new();
    let ghost k0 = kept@;
    while kept.len() > 0
        invariant
            kept@.len() <= k0.len(),
            kept@ == k0.take(kept@.len() as int),
            ids_of(out@) == ids_of(k0.skip(kept@.len() as int)).reverse(),
        decreases kept.len(),
    {
        let ghost n = kept@.len() as int;
        let ghost before = ids_of(out@);
        match kept.pop() {
            Some(c) => {
                out.push(c);
                assert(kept@ =~= k0.take(n - 1));
                assert(ids_of(out@) =~= before.push(c.child.id));
                assert(ids_of(k0.skip(n - 1)) =~= seq![c.child.id] + ids_of(k0.skip(n)));
                assert(ids_of(out@) =~= ids_of(k0.skip(n - 1)).reverse());
            },
            None => {},
        }
    }
    assert(k0.skip(0) =~= k0);
    out
}

/// `without` from the front.
pub proof fn lemma_without_front(
    s: Seq<ConceptRepresentationID>,
    c: ConceptRepresentationID,
    cid: ConceptRepresentationID,
)
    ensures
        without(seq![c] + s, cid) == if c == cid {
            without(s, cid)
        } else {
            seq![c] + without(s, cid)
        },
    decreases s.len(),
{
    let all = seq![c] + s;
    if s.len() == 0 {
        assert(all.drop_last() =~= Seq::empty());
        assert(without(all.drop_last(), cid) =~= Seq::empty());
        assert(without(all, cid) =~= if c == cid {
            Seq::empty()
        } else {
            seq![c]
        });
    } else {
        lemma_without_front(s.drop_last(), c, cid);
        assert(all.drop_last() =~= seq![c] + s.drop_last());
        assert(all.last() == s.last());
        if s.last() != cid && c != cid {
            assert(without(all, cid) =~= seq![c] + without(s, cid));
        }
    }
}

/// The first group whose activity is one of `acts`.
pub fn find_group(groups: &Vec<ActivityGroup>, acts: &Vec<ActivityID>) -> (r: Option<usize>)
    ensures
        match r {
            Some(k) => first_group(shapes(groups@), acts@, groups@.len() as int) == Some(k as int)
                && k < groups@.len(),
            None => first_group(shapes(groups@), acts@, groups@.len() as int) is None,
        },
{
    let mut i: usize = 0;
    while i < groups.len()
        invariant
            i <= groups.len(),
            first_group(shapes(groups@), acts@, i as int) is None,
        decreases groups.len() - i,
    {
        assert(shapes(groups@)[i as int] == shape(groups@[i as int]));
        let hit = match &groups[i].activity {
            Some(a) => holds_activity(acts, a.child.id),
            None => false,
        };
        if hit {
            proof {
                lemma_first_group_stays(shapes(groups@), acts@, i + 1, groups@.len() as int);
            }
            return Some(i);
        }
        i += 1;
    }
    None
}

/// Once found, the first group stays the first.
pub proof fn lemma_first_group_stays(groups: Seq<GroupShape>, acts: Seq<ActivityID>, m: int, n: int)
    requires
        m <= n,
        first_group(groups, acts, m) is Some,
    ensures
        first_group(groups, acts, n) == first_group(groups, acts, m),
    decreases n - m,
{
    if m < n {
        lemma_first_group_stays(groups, acts, m, n - 1);
    }
}

impl Data {
    /// The identifiers of the activities that teach `cid`.
    pub open spec fn teacher_ids(&self, cid: ConceptRepresentationID) -> Seq<ActivityID> {
        let t = self.teachers(cid, self.activities@.len() as int);
        Seq::new(t.len(), |k: int| self.activities@[t[k]].id)
    }

    /// The groups that the first `n` of `x` make, each concept put to the
    /// first group whose activity teaches it, or to a new group: that of the
    /// first activity that teaches it, or one without an activity. A group
    /// hints at what else its activity teaches.
    pub open spec fn grouped(&self, x: Seq<ConceptRepresentationID>, n: int) -> Seq<GroupShape>
        decreases n,
    {
        if n <= 0 {
            Seq::empty()
        } else {
            let g = self.grouped(x, n - 1);
            let cid = x[n - 1];
            let acts = self.teacher_ids(cid);
            match first_group(g, acts, g.len() as int) {
                Some(k) => g.update(
                    k,
                    GroupShape {
                        activity: g[k].activity,
                        concepts: g[k].concepts.push(cid),
                        hints: without(g[k].hints, cid),
                    },
                ),
                None => if acts.len() >= 1 {
                    g.push(
                        GroupShape {
                            activity: Some(acts[0]),
                            concepts: seq![cid],
                            hints: without(self.activities@[acts[0].0 as int].new_concepts@, cid),
                        },
                    )
                } else {
                    g.push(
                        GroupShape { activity: None, concepts: seq![cid], hints: Seq::empty() },
                    )
                },
            }
        }
    }

    /// The identifiers of the activities that teach `cid`.
    pub fn teachers_of(&self, cid: ConceptRepresentationID) -> (out: Vec<ActivityID>)
        ensures
            out@ == self.teacher_ids(cid),
    {
        let mut out: Vec<ActivityID> = Vec::new();
        let mut i: usize = 0;
        while i < self.activities.len()
            invariant
                i <= self.activities.len(),
                out@.len() == self.teachers(cid, i as int).len(),
                forall|k: int|
                    0 <= k < out@.len() ==> out@[k] == self.activities@[self.teachers(
                        cid,
                        i as int,
                    )[k]].id,
            decreases self.activities.len() - i,
        {
            if holds_concept(&self.activities[i].new_concepts, cid) {
                out.push(self.activities[i].id);
            }
            i += 1;
        }
        assert(out@ =~= self.teacher_ids(cid));
        out
    }

    /// What else the activity at `a` teaches than `cid`, each shown as
    /// something to add.
    pub fn hints_for(
        &self,
        a: usize,
        cid: Option<ConceptRepresentationID>,
        parentid: &str,
        relationship: &str,
    ) -> (out: Vec<Child<ConceptRepresentationView>>)
        requires
            self.linked(),
            a < self.activities@.len(),
        ensures
            ids_of(out@) == match cid {
                Some(c) => without(self.activities@[a as int].new_concepts@, c),
                None => self.activities@[a as int].new_concepts@,
            },
            forall|k: int| 0 <= k < out@.len() ==> (#[trigger] out@[k]).verb@ == "Add"@,
    {
        let all = &self.activities[a].new_concepts;
        let mut out: Vec<Child<ConceptRepresentationView>> = Vec::new();
        let mut i: usize = 0;
        assert(ids_of(out@) =~= Seq::<ConceptRepresentationID>::empty());
        while i < all.len()
            invariant
                i <= all.len(),
                self.linked(),
                a < self.activities@.len(),
                all@ == self.activities@[a as int].new_concepts@,
                ids_of(out@) == match cid {
                    Some(c) => without(all@.take(i as int), c),
                    None => all@.take(i as int),
                },
                forall|k: int| 0 <= k < out@.len() ==> (#[trigger] out@[k]).verb@ == "Add"@,
            decreases all.len() - i,
        {
            let id = all[i];
            assert(self.activities@[a as int].new_concepts@[i as int] == id);
            assert(all@.take(i + 1).drop_last() == all@.take(i as int));
            let keep = match cid {
                Some(c) => id != c,
                None => true,
            };
            if keep {
                let ghost before = ids_of(out@);
                let v = self.concept_representation_view(parentid.to_owned(), relationship, id);
                out.push(v.set_verb("Add"));
                assert(ids_of(out@) =~= before.push(id));
            }
            i += 1;
        }
        assert(all@.take(i as int) == all@);
        out
    }

    /// The groups that the concepts `x` make (see `grouped`), in the order of
    /// their activities, a group without activity as one of the activity
    /// 100000; the concepts of each group in the order of their identifiers.
    /// What is shown can be removed from `relationship` of the thing
    /// `parentid`.
    pub fn group_concepts(
        &self,
        x: &Vec<ConceptRepresentationID>,
        parentid: &str,
        relationship: &str,
    ) -> (out: Vec<ActivityGroup>)
        requires
            self.linked(),
            forall|i: int| 0 <= i < x@.len() ==> self.known(#[trigger] x@[i]),
        ensures
            shapes(out@) == arranged(self.grouped(x@, x@.len() as int)),
    {
        let mut groups: Vec<ActivityGroup> = Vec::new();
        let mut i: usize = 0;
        assert(shapes(groups@) =~= self.grouped(x@, 0));
        while i < x.len()
            invariant
                i <= x.len(),
                self.linked(),
                forall|i: int| 0 <= i < x@.len() ==> self.known(#[trigger] x@[i]),
                shapes(groups@) == self.grouped(x@, i as int),
            decreases x.len() - i,
        {
            let cid = x[i];
            let acts = self.teachers_of(cid);
            let cc = self.concept_representation_view(parentid.to_owned(), relationship, cid);
            let ghost before = shapes(groups@);
            match find_group(&groups, &acts) {
                Some(k) => {
                    let g = groups.remove(k);
                    assert(shape(g) == before[k as int]);
                    let ActivityGroup { activity, concepts, hint_concepts } = g;
                    let mut concepts = concepts;
                    let ghost ids = ids_of(concepts@);
                    concepts.push(cc);
                    assert(ids_of(concepts@) =~= ids.push(cid));
                    let hint_concepts = drop_concept(hint_concepts, cid);
                    groups.insert(k, ActivityGroup { activity, concepts, hint_concepts });
                    assert(shapes(groups@) =~= before.update(k as int, shape(groups@[k as int])));
                },
                None => {
                    if acts.len() >= 1 {
                        let a = acts[0];
                        proof {
                            self.lemma_teachers(cid, self.activities@.len() as int);
                            let t = self.teachers(cid, self.activities@.len() as int);
                            assert(a == self.activities@[t[0]].id);
                            assert(a.0 == t[0]);
                        }
                        let hints = self.hints_for(a.0, Some(cid), parentid, relationship);
                        let shown = Child::remove(
                            parentid.to_owned(),
                            relationship,
                            self.activities[a.0].clone(),
                        );
                        let mut concepts: Vec<Child<ConceptRepresentationView>> = Vec::new();
                        concepts.push(cc);
                        assert(ids_of(concepts@) =~= seq![cid]);
                        groups.push(
                            ActivityGroup { activity: Some(shown), concepts, hint_concepts: hints },
                        );
                        assert(shapes(groups@) =~= before.push(shape(groups@[groups@.len() - 1])));
                    } else {
                        let mut concepts: Vec<Child<ConceptRepresentationView>> = Vec::new();
                        concepts.push(cc);
                        assert(ids_of(concepts@) =~= seq![cid]);
                        groups.push(
                            ActivityGroup { activity: None, concepts, hint_concepts: Vec::new() },
                        );
                        assert(ids_of(groups@[groups@.len() - 1].hint_concepts@)
                            =~= Seq::<ConceptRepresentationID>::empty());
                        assert(shapes(groups@) =~= before.push(shape(groups@[groups@.len() - 1])));
                    }
                },
            }
            i += 1;
        }
        arrange(groups)
    }
}

/// The groups in the order of their keys, each with its concepts in order.
pub fn arrange(groups: Vec<ActivityGroup>) -> (out: Vec<ActivityGroup>)
    ensures
        shapes(out@) == arranged(shapes(groups@)),
{
    let ghost g0 = groups@;
    let mut keys: Vec<u128> = Vec::new();
    let mut i: usize = 0;
    while i < groups.len()
        invariant
            i <= groups.len(),
            keys@.len() == i,
            forall|j: int| 0 <= j < i ==> keys@[j] == group_key(shape(groups@[j])),
        decreases groups.len() - i,
    {
        let key: u128 = match &groups[i].activity {
            Some(a) => a.child.id.0 as u128,
            None => 100000,
        };
        keys.push(key);
        i += 1;
    }
    let mut sorted = sort_by_keys(groups, &keys);
    let ghost s0 = sorted@;
    proof {
        let f = |g: ActivityGroup| shape(g);
        lemma_sorted_by_mapped(g0, keys@, f);
        assert(g0.map_values(f) =~= shapes(g0));
        assert(s0.map_values(f) =~= shapes(s0));
        assert(keys@ =~= group_keys(shapes(g0)));
    }
    let mut k: usize = 0;
    while k < sorted.len()
        invariant
            k <= sorted@.len(),
            sorted@.len() == s0.len(),
            forall|j: int| 0 <= j < k ==> shape(#[trigger] sorted@[j]) == tidy(shape(s0[j])),
            forall|j: int| k <= j < sorted@.len() ==> #[trigger] sorted@[j] == s0[j],
        decreases sorted.len() - k,
    {
        let g = sorted.remove(k);
        let ActivityGroup { activity, concepts, hint_concepts } = g;
        let concepts = sort_concepts(concepts);
        sorted.insert(k, ActivityGroup { activity, concepts, hint_concepts });
        k += 1;
    }
    assert(shapes(sorted@) =~= arranged(shapes(g0)));
    sorted
}

/// Some group is that of the activity `id`.
pub open spec fn has_group(groups: Seq<GroupShape>, id: ActivityID) -> bool {
    exists|k: int| 0 <= k < groups.len() && (#[trigger] groups[k]).activity == Some(id)
}

/// `a` comes before `b`: by concept, then none before any representation,
/// then by representation.
pub open spec fn id_before(a: ConceptRepresentationID, b: ConceptRepresentationID) -> bool {
    a.concept.0 < b.concept.0 || (a.concept.0 == b.concept.0 && minor_key(a) < minor_key(b))
}

/// Each identifier comes before the next.
pub open spec fn ids_ascending(s: Seq<ConceptRepresentationID>) -> bool {
    forall|i: int, j: int| 0 <= i < j < s.len() ==> id_before(s[i], s[j])
}

fn comes_first(a: ConceptRepresentationID, b: ConceptRepresentationID) -> (r: bool)
    ensures
        r == id_before(a, b),
{
    if a.concept.0 != b.concept.0 {
        a.concept.0 < b.concept.0
    } else {
        match (a.representation, b.representation) {
            (None, None) => false,
            (None, Some(_)) => true,
            (Some(_), None) => false,
            (Some(x), Some(y)) => x.0 < y.0,
        }
    }
}

/// Puts `x` into an ascending list of identifiers, unless it is there
/// already.
pub fn insert_id(v: &mut Vec<ConceptRepresentationID>, x: ConceptRepresentationID)
    requires
        ids_ascending(old(v)@),
    ensures
        ids_ascending(final(v)@),
        forall|y: ConceptRepresentationID|
            final(v)@.contains(y) <==> (old(v)@.contains(y) || y == x),
{
    let mut i: usize = 0;
    while i < v.len() && comes_first(v[i], x)
        invariant
            i <= v.len(),
            v@ == old(v)@,
            forall|k: int| 0 <= k < i ==> id_before(v@[k], x),
        decreases v.len() - i,
    {
        i += 1;
    }
    if i < v.len() && v[i] == x {
        assert(v@.contains(x));
        return ;
    }
    v.insert(i, x);
    proof {
        let before = old(v)@;
        let after = v@;
        assert(after[i as int] == x);
        assert forall|y: ConceptRepresentationID|
            after.contains(y) <==> (before.contains(y) || y == x) by {
            if after.contains(y) {
                let k = choose|k: int| 0 <= k < after.len() && after[k] == y;
                if k < i {
                    assert(before[k] == y);
                } else if k > i {
                    assert(before[k - 1] == y);
                }
            }
            if before.contains(y) {
                let k = choose|k: int| 0 <= k < before.len() && before[k] == y;
                if k < i {
                    assert(after[k] == y);
                } else {
                    assert(after[k + 1] == y);
                }
            }
        }
        assert forall|a: int, b: int| 0 <= a < b < after.len() implies id_before(
            after[a],
            after[b],
        ) by {
            let a0 = if a < i { a } else { a - 1 };
            let b0 = if b < i { b } else { b - 1 };
            if a == i {
                assert(after[b] == before[b0]);
                if b0 > i {
                    assert(id_before(before[i as int], before[b0]));
                }
            } else if b == i {
                assert(after[a] == before[a0]);
            } else {
                assert(after[a] == before[a0] && after[b] == before[b0]);
            }
        }
    }
}

impl Data {
    /// `id` is a concept of the store, as such or in one of its
    /// representations.
    pub open spec fn stored(&self, id: ConceptRepresentationID) -> bool {
        exists|i: int|
            0 <= i < self.concepts@.len() && (#[trigger] self.concepts@[i]).id == id.concept && (
            id.representation matches Some(r)
                ==> self.concepts@[i].representations@.contains_key(r.0))
    }

    /// The concepts of the store, as such and in each of their
    /// representations, in order.
    pub fn untaught_concept_representations(&self) -> (ids: Vec<ConceptRepresentationID>)
        ensures
            ids_ascending(ids@),
            forall|id: ConceptRepresentationID| ids@.contains(id) <==> self.stored(id),
    {
        let mut ids: Vec<ConceptRepresentationID> = Vec::new();
        let mut i: usize = 0;
        while i < self.concepts.len()
            invariant
                i <= self.concepts.len(),
                ids_ascending(ids@),
                forall|id: ConceptRepresentationID|
                    ids@.contains(id) <==> exists|j: int|
                        0 <= j < i && (#[trigger] self.concepts@[j]).id == id.concept && (
                        id.representation matches Some(r)
                            ==> self.concepts@[j].representations@.contains_key(r.0)),
            decreases self.concepts.len() - i,
        {
            let c = &self.concepts[i];
            let ghost before = ids@;
            insert_id(&mut ids, ConceptRepresentationID { concept: c.id, representation: None });
            let keys = keys_of(&c.representations);
            let ghost mid = ids@;
            let mut k: usize = 0;
            while k < keys.len()
                invariant
                    k <= keys.len(),
                    ids_ascending(ids@),
                    forall|id: ConceptRepresentationID|
                        ids@.contains(id) <==> (mid.contains(id) || (id.concept == c.id && (
                        id.representation matches Some(r) && keys@.take(k as int).contains(r.0)))),
                decreases keys.len() - k,
            {
                let next = ConceptRepresentationID {
                    concept: c.id,
                    representation: Some(RepresentationID(keys[k])),
                };
                insert_id(&mut ids, next);
                proof {
                    let done = keys@.take(k as int);
                    let more = keys@.take(k + 1);
                    assert(more.drop_last() == done);
                    assert forall|x: usize| more.contains(x) <==> (done.contains(x) || x
                        == keys@[k as int]) by {
                        if more.contains(x) {
                            let h = choose|h: int| 0 <= h < more.len() && more[h] == x;
                            if h < k {
                                assert(done[h] == x);
                            }
                        }
                        if done.contains(x) {
                            let h = choose|h: int| 0 <= h < done.len() && done[h] == x;
                            assert(more[h] == x);
                        }
                        if x == keys@[k as int] {
                            assert(more[k as int] == x);
                        }
                    }
                }
                k += 1;
            }
            proof {
                assert(keys@.take(k as int) == keys@);
                assert forall|id: ConceptRepresentationID|
                    ids@.contains(id) <==> exists|j: int|
                        0 <= j < i + 1 && (#[trigger] self.concepts@[j]).id == id.concept && (
                        id.representation matches Some(r)
                            ==> self.concepts@[j].representations@.contains_key(r.0)) by {
                    if ids@.contains(id) {
                        if before.contains(id) {
                            let j = choose|j: int|
                                0 <= j < i && (#[trigger] self.concepts@[j]).id == id.concept && (
                                id.representation matches Some(r)
                                    ==> self.concepts@[j].representations@.contains_key(r.0));
                            assert(self.concepts@[j].id == id.concept);
                        } else if mid.contains(id) {
                            assert(id == (ConceptRepresentationID {
                                concept: c.id,
                                representation: None,
                            }));
                            assert(self.concepts@[i as int].id == id.concept);
                        } else {
                            assert(id.concept == c.id);
                            assert(id.representation is Some);
                            assert(keys@.contains((id.representation->0).0));
                            assert(self.concepts@[i as int].id == id.concept);
                            assert(self.concepts@[i as int].representations@.contains_key(
                                (id.representation->0).0,
                            ));
                        }
                    }
                    if exists|j: int|
                        0 <= j < i + 1 && (#[trigger] self.concepts@[j]).id == id.concept && (
                        id.representation matches Some(r)
                            ==> self.concepts@[j].representations@.contains_key(r.0)) {
                        let j = choose|j: int|
                            0 <= j < i + 1 && (#[trigger] self.concepts@[j]).id == id.concept && (
                            id.representation matches Some(r)
                                ==> self.concepts@[j].representations@.contains_key(r.0));
                        if j < i {
                            assert(before.contains(id));
                        } else {
                            match id.representation {
                                None => {
                                    assert(mid.contains(id));
                                },
                                Some(r) => {
                                    assert(keys@.contains(r.0));
                                },
                            }
                        }
                    }
                }
            }
            i += 1;
        }
        ids
    }

    /// `id` is one of the first `n` concepts of the store, as such or in one
    /// of its representations.
    pub open spec fn among(&self, id: ConceptRepresentationID, n: int) -> bool {
        &&& id.concept.0 < n
        &&& id.concept.0 < self.concepts@.len()
        &&& id.representation matches Some(r)
            ==> self.concepts@[id.concept.0 as int].representations@.contains_key(r.0)
    }

    /// `name` is the name of one of the first `n` concepts of the store, as
    /// such or in one of its representations.
    pub open spec fn is_name(&self, name: Seq<char>, n: int) -> bool {
        exists|id: ConceptRepresentationID| #[trigger] self.among(id, n) && self.name_of(id) == name
    }

    /// The names of the concepts of the store, as such and in each of their
    /// representations, in order and each once: what the field `field` of the
    /// thing `id` can be chosen from.
    pub fn all_concept_representations(&self, id: String, field: &str) -> (r:
        ConceptRepresentationChoice)
        requires
            self.linked(),
        ensures
            r.id == id,
            r.field@ == field@,
            texts_ascending(r.choices@),
            forall|name: Seq<char>| #[trigger]
                has_text(r.choices@, name) <==> self.is_name(name, self.concepts@.len() as int),
    {
        let mut names: Vec<String> = Vec::new();
        let mut i: usize = 0;
        while i < self.concepts.len()
            invariant
                i <= self.concepts.len(),
                self.linked(),
                texts_ascending(names@),
                forall|name: Seq<char>| #[trigger]
                    has_text(names@, name) <==> self.is_name(name, i as int),
            decreases self.concepts.len() - i,
        {
            let c = &self.concepts[i];
            let ghost before = names@;
            let ghost plain = ConceptRepresentationID {
                concept: ConceptID(i),
                representation: None,
            };
            insert_text(&mut names, c.name.clone());
            let keys = keys_of(&c.representations);
            let ghost mid = names@;
            let mut k: usize = 0;
            while k < keys.len()
                invariant
                    k <= keys.len(),
                    self.linked(),
                    i < self.concepts@.len(),
                    *c == self.concepts@[i as int],
                    forall|x: usize| keys@.contains(x) <==> c.representations@.contains_key(x),
                    texts_ascending(names@),
                    forall|name: Seq<char>| #[trigger]
                        has_text(names@, name) <==> (has_text(mid, name) || exists|h: int|
                            0 <= h < k && self.name_of(
                                ConceptRepresentationID {
                                    concept: ConceptID(i),
                                    representation: Some(RepresentationID(#[trigger] keys@[h])),
                                },
                            ) == name),
                decreases keys.len() - k,
            {
                assert(keys@.contains(keys@[k as int]));
                let id = ConceptRepresentationID {
                    concept: ConceptID(i),
                    representation: Some(RepresentationID(keys[k])),
                };
                insert_text(&mut names, self.name_it(id));
                k += 1;
            }
            proof {
                assert forall|name: Seq<char>| #[trigger]
                    has_text(names@, name) <==> self.is_name(name, i + 1) by {
                    if has_text(names@, name) {
                        if has_text(mid, name) {
                            if has_text(before, name) {
                                let id = choose|id: ConceptRepresentationID| #[trigger]
                                    self.among(id, i as int) && self.name_of(id) == name;
                                assert(self.among(id, i + 1));
                            } else {
                                assert(self.among(plain, i + 1));
                            }
                        } else {
                            let h = choose|h: int|
                                0 <= h < keys@.len() && self.name_of(
                                    ConceptRepresentationID {
                                        concept: ConceptID(i),
                                        representation: Some(RepresentationID(#[trigger] keys@[h])),
                                    },
                                ) == name;
                            assert(keys@.contains(keys@[h]));
                            assert(self.among(
                                ConceptRepresentationID {
                                    concept: ConceptID(i),
                                    representation: Some(RepresentationID(keys@[h])),
                                },
                                i + 1,
                            ));
                        }
                    }
                    if self.is_name(name, i + 1) {
                        let id = choose|id: ConceptRepresentationID| #[trigger]
                            self.among(id, i + 1) && self.name_of(id) == name;
                        if id.concept.0 < i {
                            assert(self.among(id, i as int));
                            assert(has_text(before, name));
                        } else {
                            match id.representation {
                                None => {
                                    assert(id == plain);
                                    assert(has_text(mid, name));
                                },
                                Some(r) => {
                                    assert(keys@.contains(r.0));
                                    let h = choose|h: int| 0 <= h < keys@.len() && keys@[h] == r.0;
                                    assert(id == (ConceptRepresentationID {
                                        concept: ConceptID(i),
                                        representation: Some(RepresentationID(keys@[h])),
                                    }));
                                },
                            }
                        }
                    }
                }
            }
            i += 1;
        }
        ConceptRepresentationChoice { id, field: field.to_owned(), choices: names }
    }

    /// The representations that have a name: one that is used as it is, one
    /// that is not as something that can be removed.
    pub fn all_representations(&self) -> (out: Vec<Child<Representation>>)
        requires
            self.wf(),
        ensures
            forall|k: int|
                0 <= k < out@.len() ==> {
                    let r = (#[trigger] out@[k]).child;
                    &&& r.id.0 < self.representations@.len()
                    &&& r == self.representations@[r.id.0 as int]
                    &&& r.name@.len() > 0
                    &&& if self.uses(r.id) {
                        out@[k].verb@.len() == 0 && out@[k].parentid@.len() == 0
                    } else {
                        out@[k].verb@ == "Remove"@ && out@[k].parentid@ == r.id.html_spec()
                            && out@[k].relationship@ == "exists"@
                    }
                },
            forall|i: int|
                0 <= i < self.representations@.len() && self.representations@[i].name@.len() > 0
                    ==> exists|k: int|
                    0 <= k < out@.len() && (#[trigger] out@[k]).child == self.representations@[i],
            forall|a: int, b: int|
                0 <= a < b < out@.len() ==> out@[a].child.id.0 < out@[b].child.id.0,
    {
        let mut out: Vec<Child<Representation>> = Vec::new();
        let mut i: usize = 0;
        while i < self.representations.len()
            invariant
                i <= self.representations.len(),
                self.wf(),
                forall|k: int|
                    0 <= k < out@.len() ==> {
                        let r = (#[trigger] out@[k]).child;
                        &&& r.id.0 < i
                        &&& r == self.representations@[r.id.0 as int]
                        &&& r.name@.len() > 0
                        &&& if self.uses(r.id) {
                            out@[k].verb@.len() == 0 && out@[k].parentid@.len() == 0
                        } else {
                            out@[k].verb@ == "Remove"@ && out@[k].parentid@ == r.id.html_spec()
                                && out@[k].relationship@ == "exists"@
                        }
                    },
                forall|j: int|
                    0 <= j < i && self.representations@[j].name@.len() > 0 ==> exists|k: int|
                        0 <= k < out@.len() && (#[trigger] out@[k]).child
                            == self.representations@[j],
                forall|a: int, b: int|
                    0 <= a < b < out@.len() ==> out@[a].child.id.0 < out@[b].child.id.0,
            decreases self.representations.len() - i,
        {
            let r = &self.representations[i];
            let ghost before = out@;
            if !r.name.as_str().is_empty() {
                if self.representation_used(r.id) {
                    out.push(Child::none(r.clone()));
                } else {
                    out.push(Child::remove(r.id.html(), "exists", r.clone()));
                }
                proof {
                    assert forall|j: int|
                        0 <= j < i + 1 && self.representations@[j].name@.len() > 0 implies exists|
                        k: int,
                    | 0 <= k < out@.len() && (#[trigger] out@[k]).child
                        == self.representations@[j] by {
                        if j < i {
                            let k = choose|k: int|
                                0 <= k < before.len() && (#[trigger] before[k]).child
                                    == self.representations@[j];
                            assert(out@[k] == before[k]);
                        } else {
                            assert(out@[out@.len() - 1].child == self.representations@[j]);
                        }
                    }
                }
            }
            i += 1;
        }
        out
    }

    /// Adds a group for the activity `a`, with nothing in it but the hints at
    /// what the activity teaches, unless there is a group for it.
    pub fn extend_groups_with_activity(
        &self,
        gs: &mut Vec<ActivityGroup>,
        a: Activity,
        parentid: &str,
        relationship: &str,
    )
        requires
            self.linked(),
            a.id.0 < self.activities@.len(),
        ensures
            shapes(final(gs)@) == if has_group(shapes(old(gs)@), a.id) {
                shapes(old(gs)@)
            } else {
                shapes(old(gs)@).push(
                    GroupShape {
                        activity: Some(a.id),
                        concepts: Seq::empty(),
                        hints: self.activities@[a.id.0 as int].new_concepts@,
                    },
                )
            },
    {
        let mut i: usize = 0;
        while i < gs.len()
            invariant
                i <= gs.len(),
                gs@ == old(gs)@,
                forall|k: int| 0 <= k < i ==> (#[trigger] shapes(gs@)[k]).activity != Some(a.id),
            decreases gs.len() - i,
        {
            assert(shapes(gs@)[i as int] == shape(gs@[i as int]));
            let hit = match &gs[i].activity {
                Some(x) => x.child.id == a.id,
                None => false,
            };
            if hit {
                assert(has_group(shapes(gs@), a.id));
                return ;
            }
            i += 1;
        }
        let hints = self.hints_for(a.id.0, None, parentid, relationship);
        let ghost before = shapes(gs@);
        let ghost id = a.id;
        let shown = Child::remove(parentid.to_owned(), relationship, a);
        gs.push(ActivityGroup { activity: Some(shown), concepts: Vec::new(), hint_concepts: hints });
        proof {
            let last = gs@[gs@.len() - 1];
            assert(ids_of(last.concepts@) =~= Seq::<ConceptRepresentationID>::empty());
            assert(shapes(gs@) =~= before.push(shape(last)));
        }
    }
}

/// `copies` hold the same as `stored`, one for one.
pub open spec fn same_activities(copies: Seq<Activity>, stored: Seq<Activity>) -> bool {
    &&& copies.len() == stored.len()
    &&& forall|i: int| 0 <= i < copies.len() ==> (#[trigger] copies[i]).same(&stored[i])
}

/// Copies of the activities.
pub fn copy_activities(v: &Vec<Activity>) -> (out: Vec<Activity>)
    ensures
        same_activities(out@, v@),
{
    let out = v.clone();
    assert forall|i: int| 0 <= i < out@.len() implies (#[trigger] out@[i]).same(&v@[i]) by {
        assert(cloned(v@[i], out@[i]));
    }
    out
}

impl Data {
    /// No concept of the store has the name `name`.
    pub open spec fn no_concept_called(&self, name: Seq<char>) -> bool {
        forall|j: int| 0 <= j < self.concepts@.len() ==>
            (#[trigger] self.concepts@[j]).name@ != name
    }

    /// `id` is what the name `name` stands for: the first concept of that
    /// name, or where there is none, the first concept in a representation
    /// that goes by that name.
    pub open spec fn names_it(&self, name: Seq<char>, id: ConceptRepresentationID) -> bool {
        &&& self.among(id, self.concepts@.len() as int)
        &&& self.name_of(id) == name
        &&& id.representation is None ==> forall|j: int|
            0 <= j < id.concept.0 ==> (#[trigger] self.concepts@[j]).name@ != name
        &&& id.representation is Some ==> self.no_concept_called(name) && forall|
            other: ConceptRepresentationID,
        | #[trigger]
            self.among(other, self.concepts@.len() as int) && self.name_of(other) == name
                ==> !id_before(other, id)
    }

    /// What the name `name` stands for, if anything.
    pub open spec fn named_thing(&self, name: Seq<char>) -> Option<ConceptRepresentationID> {
        if self.is_name(name, self.concepts@.len() as int) {
            Some(choose|id: ConceptRepresentationID| self.names_it(name, id))
        } else {
            None
        }
    }

    /// A name stands for one thing at most.
    pub proof fn lemma_names_one(
        &self,
        name: Seq<char>,
        a: ConceptRepresentationID,
        b: ConceptRepresentationID,
    )
        requires
            self.names_it(name, a),
            self.names_it(name, b),
        ensures
            a == b,
    {
        if a.representation is None && b.representation is None {
            if a.concept.0 < b.concept.0 {
                assert(self.concepts@[a.concept.0 as int].name@ == name);
            } else if b.concept.0 < a.concept.0 {
                assert(self.concepts@[b.concept.0 as int].name@ == name);
            }
        } else if a.representation is None {
            assert(self.concepts@[a.concept.0 as int].name@ == name);
        } else if b.representation is None {
            assert(self.concepts@[b.concept.0 as int].name@ == name);
        } else {
            assert(self.among(a, self.concepts@.len() as int));
            assert(self.among(b, self.concepts@.len() as int));
            assert(!id_before(a, b));
            assert(!id_before(b, a));
        }
    }

    /// The concept, as such or in one of its representations, that has the
    /// name `name`: the first concept of that name, or where there is none,
    /// the first concept in a representation that goes by that name.
    pub fn concept_representation_to_id(&self, name: &str) -> (r: Option<ConceptRepresentationID>)
        requires
            self.linked(),
        ensures
            r == self.named_thing(name@),
            r matches Some(id) ==> self.names_it(name@, id),
    {
        let r = self.find_named(name);
        proof {
            if r is Some {
                let id = r->0;
                assert(self.names_it(name@, id));
                assert(self.is_name(name@, self.concepts@.len() as int));
                let got = choose|id: ConceptRepresentationID| self.names_it(name@, id);
                self.lemma_names_one(name@, id, got);
            }
        }
        r
    }

    /// What the name `name` stands for, found by going through the concepts.
    fn find_named(&self, name: &str) -> (r: Option<ConceptRepresentationID>)
        requires
            self.linked(),
        ensures
            match r {
                Some(id) => {
                    &&& self.among(id, self.concepts@.len() as int)
                    &&& self.name_of(id) == name@
                    &&& id.representation is None ==> forall|j: int|
                        0 <= j < id.concept.0 ==> (#[trigger] self.concepts@[j]).name@ != name@
                    &&& id.representation is Some ==> self.no_concept_called(name@) && forall|
                        other: ConceptRepresentationID,
                    | #[trigger]
                        self.among(other, self.concepts@.len() as int) && self.name_of(other)
                            == name@ ==> !id_before(other, id)
                },
                None => !self.is_name(name@, self.concepts@.len() as int),
            },
    {
        let mut i: usize = 0;
        while i < self.concepts.len()
            invariant
                i <= self.concepts.len(),
                self.linked(),
                forall|j: int| 0 <= j < i ==> (#[trigger] self.concepts@[j]).name@ != name@,
            decreases self.concepts.len() - i,
        {
            let c = &self.concepts[i];
            if same_text(c.name.as_str(), name) {
                assert(c.id.0 == i);
                return Some(ConceptRepresentationID { concept: c.id, representation: None });
            }
            i += 1;
        }
        let mut i: usize = 0;
        while i < self.concepts.len()
            invariant
                i <= self.concepts.len(),
                self.linked(),
                self.no_concept_called(name@),
                forall|other: ConceptRepresentationID| #[trigger]
                    self.among(other, i as int) ==> self.name_of(other) != name@,
            decreases self.concepts.len() - i,
        {
            let c = &self.concepts[i];
            assert(c.id.0 == i);
            let keys = keys_of(&c.representations);
            let mut k: usize = 0;
            while k < keys.len()
                invariant
                    k <= keys.len(),
                    i < self.concepts@.len(),
                    self.linked(),
                    *c == self.concepts@[i as int],
                    c.id.0 == i,
                    crate::graph::ascending(keys@),
                    forall|x: usize| keys@.contains(x) <==> c.representations@.contains_key(x),
                    self.no_concept_called(name@),
                    forall|other: ConceptRepresentationID| #[trigger]
                        self.among(other, i as int) ==> self.name_of(other) != name@,
                    forall|h: int|
                        0 <= h < k ==> self.name_of(
                            ConceptRepresentationID {
                                concept: c.id,
                                representation: Some(RepresentationID(#[trigger] keys@[h])),
                            },
                        ) != name@,
                decreases keys.len() - k,
            {
                assert(keys@.contains(keys@[k as int]));
                let id = ConceptRepresentationID {
                    concept: c.id,
                    representation: Some(RepresentationID(keys[k])),
                };
                let n = self.name_it(id);
                if same_text(n.as_str(), name) {
                    proof {
                        assert forall|other: ConceptRepresentationID| #[trigger]
                            self.among(other, self.concepts@.len() as int) && self.name_of(other)
                                == name@ implies !id_before(other, id) by {
                            if other.concept.0 < i {
                                assert(self.among(other, i as int));
                            } else if other.concept.0 == i {
                                match other.representation {
                                    None => {
                                        assert(self.concepts@[i as int].name@ != name@);
                                    },
                                    Some(r) => {
                                        if r.0 < keys@[k as int] {
                                            assert(keys@.contains(r.0));
                                            let h = choose|h: int|
                                                0 <= h < keys@.len() && keys@[h] == r.0;
                                            assert(h < k);
                                            assert(other == (ConceptRepresentationID {
                                                concept: c.id,
                                                representation: Some(RepresentationID(keys@[h])),
                                            }));
                                        }
                                    },
                                }
                            }
                        }
                    }
                    return Some(id);
                }
                k += 1;
            }
            proof {
                assert forall|other: ConceptRepresentationID| #[trigger]
                    self.among(other, i + 1) implies self.name_of(other) != name@ by {
                    if other.concept.0 < i {
                        assert(self.among(other, i as int));
                    } else {
                        match other.representation {
                            None => {
                                assert(self.concepts@[i as int].name@ != name@);
                            },
                            Some(r) => {
                                assert(keys@.contains(r.0));
                                let h = choose|h: int| 0 <= h < keys@.len() && keys@[h] == r.0;
                                assert(other == (ConceptRepresentationID {
                                    concept: c.id,
                                    representation: Some(RepresentationID(keys@[h])),
                                }));
                            },
                        }
                    }
                }
            }
            i += 1;
        }
        None
    }
}

impl Data {
    /// Whether `id` names a concept of the store, and where it names a
    /// representation, one of the store that the concept has.
    pub fn is_known(&self, id: ConceptRepresentationID) -> (b: bool)
        ensures
            b == self.known(id),
    {
        if id.concept.0 >= self.concepts.len() {
            return false;
        }
        match id.representation {
            Some(rid) => rid.0 < self.representations.len()
                && self.concepts[id.concept.0].representations.contains_key(
                &rid.0,
            ),
            None => true,
        }
    }

    /// Whether all of `ids` are known.
    pub fn all_known(&self, ids: &Vec<ConceptRepresentationID>) -> (b: bool)
        ensures
            b == forall|k: int| 0 <= k < ids@.len() ==> self.known(#[trigger] ids@[k]),
    {
        let mut k: usize = 0;
        while k < ids.len()
            invariant
                k <= ids.len(),
                forall|j: int| 0 <= j < k ==> self.known(#[trigger] ids@[j]),
            decreases ids.len() - k,
        {
            if !self.is_known(ids[k]) {
                return false;
            }
            k += 1;
        }
        true
    }

    /// Whether every thing has its index for its identifier.
    pub fn is_wf(&self) -> (b: bool)
        ensures
            b == self.wf(),
    {
        let mut i: usize = 0;
        while i < self.concepts.len()
            invariant
                i <= self.concepts.len(),
                forall|j: int| 0 <= j < i ==> (#[trigger] self.concepts@[j]).id.0 == j,
            decreases self.concepts.len() - i,
        {
            if self.concepts[i].id.0 != i {
                return false;
            }
            i += 1;
        }
        let mut i: usize = 0;
        while i < self.activities.len()
            invariant
                i <= self.activities.len(),
                forall|j: int| 0 <= j < self.concepts@.len() ==>
                    (#[trigger] self.concepts@[j]).id.0 == j,
                forall|j: int| 0 <= j < i ==> (#[trigger] self.activities@[j]).id.0 == j,
            decreases self.activities.len() - i,
        {
            if self.activities[i].id.0 != i {
                return false;
            }
            i += 1;
        }
        let mut i: usize = 0;
        while i < self.representations.len()
            invariant
                i <= self.representations.len(),
                forall|j: int| 0 <= j < self.concepts@.len() ==>
                    (#[trigger] self.concepts@[j]).id.0 == j,
                forall|j: int|
                    0 <= j < self.activities@.len() ==> (#[trigger] self.activities@[j]).id.0 == j,
                forall|j: int| 0 <= j < i ==> (#[trigger] self.representations@[j]).id.0 == j,
            decreases self.representations.len() - i,
        {
            if self.representations[i].id.0 != i {
                return false;
            }
            i += 1;
        }
        let mut i: usize = 0;
        while i < self.courses.len()
            invariant
                i <= self.courses.len(),
                forall|j: int| 0 <= j < self.concepts@.len() ==>
                    (#[trigger] self.concepts@[j]).id.0 == j,
                forall|j: int|
                    0 <= j < self.activities@.len() ==> (#[trigger] self.activities@[j]).id.0 == j,
                forall|j: int|
                    0 <= j < self.representations@.len() ==> (
                    #[trigger] self.representations@[j]).id.0 == j,
                forall|j: int| 0 <= j < i ==> (#[trigger] self.courses@[j]).id.0 == j,
            decreases self.courses.len() - i,
        {
            if self.courses[i].id.0 != i {
                return false;
            }
            i += 1;
        }
        true
    }

    /// The first `n` concepts hold identifiers of the store only.
    pub open spec fn concepts_linked(&self, n: int) -> bool {
        &&& forall|i: int, k: int|
            0 <= i < n && 0 <= k < self.concepts@[i].prereq_concepts@.len() ==> (
            #[trigger] self.concepts@[i].prereq_concepts@[k]).0 < self.concepts@.len()
        &&& forall|i: int, r: usize|
            0 <= i < n && #[trigger] self.concepts@[i].representations@.contains_key(r) ==> r
                < self.representations@.len()
    }

    /// The first `n` activities hold identifiers of the store only.
    pub open spec fn activities_linked(&self, n: int) -> bool {
        &&& forall|i: int, k: int|
            0 <= i < n && 0 <= k < self.activities@[i].prereq_concepts@.len() ==> self.known(
                #[trigger] self.activities@[i].prereq_concepts@[k],
            )
        &&& forall|i: int, k: int|
            0 <= i < n && 0 <= k < self.activities@[i].new_concepts@.len() ==> self.known(
                #[trigger] self.activities@[i].new_concepts@[k],
            )
        &&& forall|i: int, k: int|
            0 <= i < n && 0 <= k < self.activities@[i].representations@.len() ==> (
            #[trigger] self.activities@[i].representations@[k]).0 < self.representations@.len()
    }

    /// The first `n` courses hold identifiers of the store only.
    pub open spec fn courses_linked(&self, n: int) -> bool {
        forall|i: int, k: int|
            0 <= i < n && 0 <= k < self.courses@[i].activities@.len() ==> (
            #[trigger] self.courses@[i].activities@[k]).0 < self.activities@.len()
    }

    fn are_concepts_linked(&self) -> (b: bool)
        ensures
            b == self.concepts_linked(self.concepts@.len() as int),
    {
        let mut i: usize = 0;
        while i < self.concepts.len()
            invariant
                i <= self.concepts.len(),
                self.concepts_linked(i as int),
            decreases self.concepts.len() - i,
        {
            let c = &self.concepts[i];
            let mut k: usize = 0;
            while k < c.prereq_concepts.len()
                invariant
                    k <= c.prereq_concepts.len(),
                    i < self.concepts@.len(),
                    *c == self.concepts@[i as int],
                    forall|j: int| 0 <= j < k ==>
                        (#[trigger] c.prereq_concepts@[j]).0 < self.concepts@.len(),
                decreases c.prereq_concepts.len() - k,
            {
                if c.prereq_concepts[k].0 >= self.concepts.len() {
                    assert(self.concepts@[i as int].prereq_concepts@[k as int].0
                        >= self.concepts@.len());
                    return false;
                }
                k += 1;
            }
            let keys = keys_of(&c.representations);
            let mut h: usize = 0;
            while h < keys.len()
                invariant
                    h <= keys.len(),
                    i < self.concepts@.len(),
                    *c == self.concepts@[i as int],
                    forall|x: usize| keys@.contains(x) <==> c.representations@.contains_key(x),
                    forall|j: int| 0 <= j < h ==>
                        (#[trigger] keys@[j]) < self.representations@.len(),
                decreases keys.len() - h,
            {
                if keys[h] >= self.representations.len() {
                    assert(keys@.contains(keys@[h as int]));
                    assert(self.concepts@[i as int].representations@.contains_key(keys@[h as int]));
                    return false;
                }
                h += 1;
            }
            proof {
                assert forall|r: usize| #[trigger]
                    self.concepts@[i as int].representations@.contains_key(r) implies r
                    < self.representations@.len() by {
                    assert(keys@.contains(r));
                    let j = choose|j: int| 0 <= j < keys@.len() && keys@[j] == r;
                    assert(keys@[j] < self.representations@.len());
                }
            }
            i += 1;
        }
        true
    }

    fn are_activities_linked(&self) -> (b: bool)
        ensures
            b == self.activities_linked(self.activities@.len() as int),
    {
        let mut i: usize = 0;
        while i < self.activities.len()
            invariant
                i <= self.activities.len(),
                self.activities_linked(i as int),
            decreases self.activities.len() - i,
        {
            let a = &self.activities[i];
            if !self.all_known(&a.prereq_concepts) {
                proof {
                    let k = choose|k: int|
                        0 <= k < a.prereq_concepts@.len() && !self.known(
                            #[trigger] a.prereq_concepts@[k],
                        );
                    assert(!self.known(self.activities@[i as int].prereq_concepts@[k]));
                }
                return false;
            }
            if !self.all_known(&a.new_concepts) {
                proof {
                    let k = choose|k: int|
                        0 <= k < a.new_concepts@.len() && !self.known(
                            #[trigger] a.new_concepts@[k],
                        );
                    assert(!self.known(self.activities@[i as int].new_concepts@[k]));
                }
                return false;
            }
            let mut k: usize = 0;
            while k < a.representations.len()
                invariant
                    k <= a.representations.len(),
                    i < self.activities@.len(),
                    *a == self.activities@[i as int],
                    forall|j: int|
                        0 <= j < k ==> (#[trigger] a.representations@[j]).0
                            < self.representations@.len(),
                decreases a.representations.len() - k,
            {
                if a.representations[k].0 >= self.representations.len() {
                    assert(self.activities@[i as int].representations@[k as int].0
                        >= self.representations@.len());
                    return false;
                }
                k += 1;
            }
            i += 1;
        }
        true
    }

    fn are_courses_linked(&self) -> (b: bool)
        ensures
            b == self.courses_linked(self.courses@.len() as int),
    {
        let mut i: usize = 0;
        while i < self.courses.len()
            invariant
                i <= self.courses.len(),
                self.courses_linked(i as int),
            decreases self.courses.len() - i,
        {
            let c = &self.courses[i];
            let mut k: usize = 0;
            while k < c.activities.len()
                invariant
                    k <= c.activities.len(),
                    i < self.courses@.len(),
                    *c == self.courses@[i as int],
                    forall|j: int| 0 <= j < k ==>
                        (#[trigger] c.activities@[j]).0 < self.activities@.len(),
                decreases c.activities.len() - k,
            {
                if c.activities[k].0 >= self.activities.len() {
                    assert(self.courses@[i as int].activities@[k as int].0
                        >= self.activities@.len());
                    return false;
                }
                k += 1;
            }
            i += 1;
        }
        true
    }

    /// Whether every identifier that a stored thing holds names a stored
    /// thing.
    pub fn is_linked(&self) -> (b: bool)
        ensures
            b == self.linked(),
    {
        self.is_wf() && self.are_concepts_linked() && self.are_activities_linked()
            && self.are_courses_linked()
    }
}

} // verus!
