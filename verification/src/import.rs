//! Taking things over from a table: each row names a concept or an activity,
//! and what it has to do with others.

use crate::activity::{Activity, ActivityModel};
use crate::concept::{blank, Concept, ConceptModel, ManifestationModel};
use crate::data::{Data, DataModel};
use crate::pages::{as_plain, plains};
use crate::ids::{ConceptID, ConceptRepresentationID, RepresentationID};
use crate::markdown::Markdown;
use crate::views::holds_concept;
use crate::text::{chars_of, position_of, push_chars, same_text, trim, trimmed};
use std::collections::BTreeMap;
use vstd::prelude::*;

verus! {

/// The parts of `s` between the characters `c`.
pub open spec fn split(s: Seq<char>, c: char) -> Seq<Seq<char>>
    decreases s.len(),
{
    let p = position_of(s, c, 0);
    if 0 <= p < s.len() {
        seq![s.take(p)] + split(s.skip(p + 1), c)
    } else {
        seq![s]
    }
}

/// The parts that are not empty, each trimmed.
pub open spec fn items(parts: Seq<Seq<char>>) -> Seq<Seq<char>>
    decreases parts.len(),
{
    if parts.len() == 0 {
        Seq::empty()
    } else if parts.last().len() == 0 {
        items(parts.drop_last())
    } else {
        items(parts.drop_last()).push(trimmed(parts.last()))
    }
}

/// The items of a list written as `[a, b, c]`; none where the text is not
/// between square brackets.
pub open spec fn listed(s: Seq<char>) -> Seq<Seq<char>> {
    if s.len() >= 2 && s[0] == '[' && s.last() == ']' {
        items(split(s.subrange(1, s.len() - 1), ','))
    } else {
        Seq::empty()
    }
}

/// The texts of the strings.
pub open spec fn texts(v: Seq<String>) -> Seq<Seq<char>> {
    Seq::new(v.len(), |i: int| v[i]@)
}

/// The text `chars[from..to]`, trimmed.
pub fn trimmed_part(chars: &Vec<char>, from: usize, to: usize) -> (out: String)
    requires
        from <= to <= chars.len(),
    ensures
        out@ == trimmed(chars@.subrange(from as int, to as int)),
{
    let mut part = String::new();
    push_chars(&mut part, chars, from, to);
    assert(Seq::<char>::empty() + chars@.subrange(from as int, to as int) =~= chars@.subrange(
        from as int,
        to as int,
    ));
    trim(part.as_str())
}

/// The items of a list written as `[a, b, c]`.
pub fn parse_list(s: &str) -> (out: Vec<String>)
    ensures
        texts(out@) == listed(s@),
{
    let chars = chars_of(s);
    let n = chars.len();
    if n < 2 || chars[0] != '[' || chars[n - 1] != ']' {
        assert(texts(Seq::<String>::empty()) =~= Seq::<Seq<char>>::empty());
        return Vec::new();
    }
    let end = n - 1;
    let ghost inner = chars@.subrange(1, end as int);
    let mut out: Vec<String> = Vec::new();
    let mut from: usize = 1;
    let mut done = false;
    let ghost mut parts: Seq<Seq<char>> = Seq::empty();
    assert(inner.skip(0) =~= inner);
    assert(texts(out@) =~= items(parts));
    while !done
        invariant
            1 <= from <= end < chars.len(),
            inner == chars@.subrange(1, end as int),
            !done ==> parts + split(inner.skip(from - 1), ',') == split(inner, ','),
            done ==> parts == split(inner, ','),
            texts(out@) == items(parts),
        decreases end - from + if done { 0int } else { 1int },
    {
        let ghost rest = inner.skip(from - 1);
        // the next comma before the closing bracket
        let mut at: usize = from;
        while at < end && chars[at] != ','
            invariant
                1 <= from <= at <= end < chars.len(),
                inner == chars@.subrange(1, end as int),
                rest == inner.skip(from - 1),
                position_of(rest, ',', 0) == position_of(rest, ',', at - from),
            decreases end - at,
        {
            assert(inner[at - 1] == chars@[at as int]);
            assert(rest[at - from] == inner[at - 1]);
            at += 1;
        }
        let ghost part = rest.take(at - from);
        proof {
            assert(part =~= chars@.subrange(from as int, at as int));
            if at < end {
                assert(inner[at - 1] == chars@[at as int]);
                assert(rest[at - from] == inner[at - 1]);
            }
            assert(rest.len() == end - from);
            assert(position_of(rest, ',', 0) == at - from);
        }
        let ghost before = texts(out@);
        let ghost seen = parts;
        if at > from {
            out.push(trimmed_part(&chars, from, at));
            assert(texts(out@) =~= before.push(trimmed(part)));
        }
        proof {
            parts = parts.push(part);
            assert(parts.drop_last() == seen);
        }
        if at < end {
            proof {
                assert(rest.skip(at - from + 1) =~= inner.skip(at as int));
                assert(seen + (seq![part] + split(inner.skip(at as int), ',')) =~= parts + split(
                    inner.skip(at as int),
                    ',',
                ));
            }
            from = at + 1;
        } else {
            proof {
                assert(seen + seq![rest] =~= parts) by {
                    assert(part =~= rest);
                }
            }
            done = true;
        }
    }
    out
}

/// The text, unless it is empty.
pub fn nonempty_string(s: &str) -> (r: Option<String>)
    ensures
        match r {
            Some(t) => t@ == s@ && s@.len() > 0,
            None => s@.len() == 0,
        },
{
    if s.is_empty() {
        None
    } else {
        Some(s.to_owned())
    }
}

/// The name that a representation goes by now, for a name it went by once.
pub open spec fn fixed_name(oldname: Seq<char>) -> Seq<char> {
    if oldname == r"partial f/partial x"@ {
        r"$\frac{\partial f}{\partial x}$"@
    } else if oldname == r"partial f/partial x fixing y"@ {
        r"$\left(\frac{\partial f}{\partial x}\right)_y$"@
    } else if oldname == r"Del f"@ {
        r"$\vec\nabla f$"@
    } else if oldname == r"Del dot f"@ {
        r"$\vec\nabla\cdot\vec f$"@
    } else if oldname == r"df"@ {
        r"$df$"@
    } else if oldname == r"picture of PDM"@ {
        r"PDM"@
    } else if oldname == r"extable.jpg"@ {
        r"Table"@
    } else {
        oldname
    }
}

/// The name that a representation goes by now, for a name it went by once.
pub fn fix_representation_name(oldname: &str) -> (name: &str)
    ensures
        name@ == fixed_name(oldname@),
{
    if same_text(oldname, r"partial f/partial x") {
        r"$\frac{\partial f}{\partial x}$"
    } else if same_text(oldname, r"partial f/partial x fixing y") {
        r"$\left(\frac{\partial f}{\partial x}\right)_y$"
    } else if same_text(oldname, r"Del f") {
        r"$\vec\nabla f$"
    } else if same_text(oldname, r"Del dot f") {
        r"$\vec\nabla\cdot\vec f$"
    } else if same_text(oldname, r"df") {
        r"$df$"
    } else if same_text(oldname, r"picture of PDM") {
        r"PDM"
    } else if same_text(oldname, r"extable.jpg") {
        r"Table"
    } else {
        oldname
    }
}

/// A row of the table.
pub struct Row {
    /// `Concept` or `Activity`; a row of another kind is passed over.
    pub thingtype: String,
    pub name: String,
    /// The names of the concepts that the thing asks for, as a list.
    pub prereq_concepts: String,
    /// The names of the concepts that the activity teaches, as a list.
    pub new_concepts: String,
    /// The names of the representations of the thing, as a list.
    pub representations: String,
    /// The number of the course that the thing belongs to, or nothing.
    pub course_number: String,
    pub figure: String,
    pub long_description: String,
    pub external_url: String,
}

/// The row names a concept.
pub open spec fn names_concept(row: Row) -> bool {
    row.thingtype@ == "Concept"@ || row.thingtype@ == "concept"@
}

/// The row names an activity.
pub open spec fn names_activity(row: Row) -> bool {
    !names_concept(row) && (row.thingtype@ == "Activity"@ || row.thingtype@ == "activity"@)
}

/// `ids` without what is among `gone`.
pub open spec fn minus(ids: Seq<ConceptRepresentationID>, gone: Seq<ConceptRepresentationID>) -> Seq<
    ConceptRepresentationID,
>
    decreases ids.len(),
{
    if ids.len() == 0 {
        Seq::empty()
    } else if gone.contains(ids.last()) {
        minus(ids.drop_last(), gone)
    } else {
        minus(ids.drop_last(), gone).push(ids.last())
    }
}

/// `ids` without what is among `gone`.
pub fn without_those(ids: &Vec<ConceptRepresentationID>, gone: &Vec<ConceptRepresentationID>) -> (out:
    Vec<ConceptRepresentationID>)
    ensures
        out@ == minus(ids@, gone@),
{
    let mut out: Vec<ConceptRepresentationID> = Vec::new();
    let mut i: usize = 0;
    while i < ids.len()
        invariant
            i <= ids.len(),
            out@ == minus(ids@.take(i as int), gone@),
        decreases ids.len() - i,
    {
        assert(ids@.take(i + 1).drop_last() == ids@.take(i as int));
        if !holds_concept(gone, ids[i]) {
            out.push(ids[i]);
        }
        i += 1;
    }
    assert(ids@.take(i as int) == ids@);
    out
}

/// The store with the concepts that the first `n` of `names` name, each made
/// where it is missing, and those concepts, name by name.
pub open spec fn having_concepts(d: DataModel, names: Seq<Seq<char>>, n: int) -> (
    DataModel,
    Seq<ConceptID>,
)
    decreases n,
{
    if n <= 0 {
        (d, Seq::empty())
    } else {
        let (e, ids) = having_concepts(d, names, n - 1);
        let (f, id) = e.having_concept(names[n - 1]);
        (f, ids.push(id))
    }
}

/// The store with the representations that the first `n` of `names` name, by
/// the names they go by now, each made where it is missing, and those
/// representations, name by name.
pub open spec fn having_representations(d: DataModel, names: Seq<Seq<char>>, n: int) -> (
    DataModel,
    Seq<RepresentationID>,
)
    decreases n,
{
    if n <= 0 {
        (d, Seq::empty())
    } else {
        let (e, ids) = having_representations(d, names, n - 1);
        let (f, id) = e.having_representation(fixed_name(names[n - 1]));
        (f, ids.push(id))
    }
}

/// The first `n` of the representations, with nothing particular to any.
pub open spec fn blanks(reps: Seq<RepresentationID>, n: int) -> Map<usize, ManifestationModel>
    decreases n,
{
    if n <= 0 {
        Map::empty()
    } else {
        blanks(reps, n - 1).insert(reps[n - 1].0, blank())
    }
}

/// The text, unless it is empty.
pub open spec fn nonempty(s: Seq<char>) -> Option<Seq<char>> {
    if s.len() == 0 {
        None
    } else {
        Some(s)
    }
}

/// The store with the concept of the row's name, trimmed, and what the row
/// says of it, unless the name is empty: it asks for `asked` and has the
/// representations `reps`; where the row gives a course, the activity that
/// anchors the course teaches the concept.
pub open spec fn concept_imported(
    d: DataModel,
    row: Row,
    asked: Seq<ConceptID>,
    reps: Seq<RepresentationID>,
) -> DataModel {
    let name = trimmed(row.name@);
    if name.len() == 0 {
        d
    } else {
        let (d1, id) = d.having_concept(name);
        let d2 = if row.course_number@.len() > 0 {
            let (e, anchor) = d1.anchored(row.course_number@);
            let a = e.activities[anchor.0 as int];
            e.put_activity(
                anchor.0 as int,
                ActivityModel {
                    new_concepts: a.new_concepts.push(
                        ConceptRepresentationID { concept: id, representation: None },
                    ),
                    ..a
                },
            )
        } else {
            d1
        };
        d2.put_concept(
            id.0 as int,
            ConceptModel {
                id,
                name,
                prereq_concepts: asked,
                representations: blanks(reps, reps.len() as int),
                figure: nonempty(row.figure@),
                long_description: row.long_description@,
            },
        )
    }
}

/// The store with the activity of the row's name, trimmed, and what the row
/// says of it: it asks for `asked`, teaches `taught` and uses `reps`. The
/// activity that anchors the row's course does not teach any more what this
/// activity teaches.
pub open spec fn activity_imported(
    d: DataModel,
    row: Row,
    asked: Seq<ConceptID>,
    taught: Seq<ConceptID>,
    reps: Seq<RepresentationID>,
) -> DataModel {
    let (d1, anchor) = d.anchored(row.course_number@);
    let a = d1.activities[anchor.0 as int];
    let d2 = d1.put_activity(
        anchor.0 as int,
        ActivityModel { new_concepts: minus(a.new_concepts, plains(taught)), ..a },
    );
    let (d3, id) = d2.having_activity(trimmed(row.name@));
    d3.put_activity(
        id.0 as int,
        ActivityModel {
            id,
            name: trimmed(row.name@),
            prereq_concepts: plains(asked),
            new_concepts: plains(taught),
            representations: reps,
            long_description: row.long_description@,
            figure: nonempty(row.figure@),
            external_url: nonempty(row.external_url@),
        },
    )
}

/// The store that has taken over what the row says. The things that the row
/// names are made where they are missing: the concepts that the thing asks
/// for, those that it teaches, its representations, and its course where
/// the row gives a number. Then the row's concept or activity is taken
/// over; a row of another kind gives no more.
pub open spec fn imported(d: DataModel, row: Row) -> DataModel {
    let asked_names = listed(row.prereq_concepts@);
    let (d1, asked) = having_concepts(d, asked_names, asked_names.len() as int);
    let taught_names = listed(row.new_concepts@);
    let (d2, taught) = having_concepts(d1, taught_names, taught_names.len() as int);
    let representation_names = listed(row.representations@);
    let (d3, reps) = having_representations(
        d2,
        representation_names,
        representation_names.len() as int,
    );
    let d4 = if row.course_number@.len() > 0 {
        d3.having_course(row.course_number@).0
    } else {
        d3
    };
    if names_concept(row) {
        concept_imported(d4, row, asked, reps)
    } else if names_activity(row) {
        activity_imported(d4, row, asked, taught, reps)
    } else {
        d4
    }
}

impl Data {
    /// The concepts of the names `names`, each made where it is missing.
    pub fn concepts_by_names(&mut self, names: &Vec<String>) -> (ids: Vec<ConceptID>)
        requires
            old(self).wf(),
        ensures
            final(self).wf(),
            (final(self)@, ids@) == having_concepts(
                old(self)@,
                texts(names@),
                names@.len() as int,
            ),
    {
        let mut ids: Vec<ConceptID> = Vec::new();
        let mut i: usize = 0;
        while i < names.len()
            invariant
                i <= names.len(),
                self.wf(),
                (self@, ids@) == having_concepts(old(self)@, texts(names@), i as int),
            decreases names.len() - i,
        {
            let id = self.concept_by_name_or_create(names[i].as_str());
            ids.push(id);
            i += 1;
        }
        ids
    }

    /// The representations of the names `names`, by the names they go by
    /// now, each made where it is missing.
    pub fn representations_by_names(&mut self, names: &Vec<String>) -> (ids: Vec<RepresentationID>)
        requires
            old(self).wf(),
        ensures
            final(self).wf(),
            (final(self)@, ids@) == having_representations(
                old(self)@,
                texts(names@),
                names@.len() as int,
            ),
    {
        let mut ids: Vec<RepresentationID> = Vec::new();
        let mut i: usize = 0;
        while i < names.len()
            invariant
                i <= names.len(),
                self.wf(),
                (self@, ids@) == having_representations(old(self)@, texts(names@), i as int),
            decreases names.len() - i,
        {
            let name = fix_representation_name(names[i].as_str());
            let id = self.representation_by_name_or_create(name);
            ids.push(id);
            i += 1;
        }
        ids
    }

    /// Takes over the concept that the row names, which asks for `prereqs`
    /// and has `representations`.
    pub fn import_concept(
        &mut self,
        row: &Row,
        prereqs: Vec<ConceptID>,
        representations: Vec<RepresentationID>,
    )
        requires
            old(self).wf(),
        ensures
            final(self).wf(),
            final(self)@ == concept_imported(old(self)@, *row, prereqs@, representations@),
    {
        let name = trim(row.name.as_str());
        if name.as_str().is_empty() {
            return ;
        }
        let id = self.concept_by_name_or_create(name.as_str());
        let mut c = Concept {
            id,
            name: name.clone(),
            prereq_concepts: prereqs,
            representations: BTreeMap::new(),
            figure: nonempty_string(row.figure.as_str()),
            long_description: row.long_description.clone(),
        };
        let ghost c0 = c@;
        assert(c0.representations =~= blanks(representations@, 0));
        let mut k: usize = 0;
        while k < representations.len()
            invariant
                k <= representations.len(),
                c@ == (ConceptModel { representations: blanks(representations@, k as int), ..c0 }),
            decreases representations.len() - k,
        {
            c.add_representation(representations[k]);
            k += 1;
        }
        if !row.course_number.as_str().is_empty() {
            let anchor = self.lower_anchor(row.course_number.as_str());
            let mut a = self.activities[anchor.0].clone();
            a.new_concepts.push(ConceptRepresentationID { concept: id, representation: None });
            self.set_activity(a);
        }
        self.set_concept(c);
        assert(self@ =~~= concept_imported(old(self)@, *row, prereqs@, representations@));
    }

    /// Takes over the activity that the row names, which asks for `prereqs`,
    /// teaches `new_ids` and uses `representations`.
    pub fn import_activity(
        &mut self,
        row: &Row,
        prereqs: Vec<ConceptID>,
        new_ids: Vec<ConceptID>,
        representations: Vec<RepresentationID>,
    )
        requires
            old(self).wf(),
        ensures
            final(self).wf(),
            final(self)@ == activity_imported(
                old(self)@,
                *row,
                prereqs@,
                new_ids@,
                representations@,
            ),
    {
        let name = trim(row.name.as_str());
        let taught = as_plain(&new_ids);
        let asked = as_plain(&prereqs);
        let anchor = self.lower_anchor(row.course_number.as_str());
        let ghost d1 = self@;
        let mut a = self.activities[anchor.0].clone();
        a.new_concepts = without_those(&a.new_concepts, &taught);
        let ghost am = a@;
        assert(am == (ActivityModel {
            new_concepts: minus(d1.activities[anchor.0 as int].new_concepts, plains(new_ids@)),
            ..d1.activities[anchor.0 as int]
        }));
        self.set_activity(a);
        let ghost d2 = self@;
        assert(d2 =~~= d1.put_activity(anchor.0 as int, am));
        let id = self.activity_by_name_or_create(name.as_str());
        let ghost d3 = self@;
        let activity = Activity {
            id,
            name: name.clone(),
            prereq_concepts: asked,
            new_concepts: taught,
            representations,
            figure: nonempty_string(row.figure.as_str()),
            long_description: Markdown(row.long_description.clone()),
            external_url: nonempty_string(row.external_url.as_str()),
        };
        let ghost last = activity@;
        assert(last == (ActivityModel {
            id,
            name: trimmed(row.name@),
            prereq_concepts: plains(prereqs@),
            new_concepts: plains(new_ids@),
            representations: representations@,
            long_description: row.long_description@,
            figure: nonempty(row.figure@),
            external_url: nonempty(row.external_url@),
        }));
        self.set_activity(activity);
        assert(self@ =~~= d3.put_activity(id.0 as int, last));
        assert(self@ =~~= activity_imported(
            old(self)@,
            *row,
            prereqs@,
            new_ids@,
            representations@,
        ));
    }

    /// Takes over what the row says: a concept or an activity of the row's
    /// name, trimmed, with what the row gives for it; the things that the row
    /// names are made where they are missing. A concept of a course is
    /// taught by the activity that anchors the course; what an activity
    /// teaches, the activity that anchors its course does not teach any more.
    pub fn import_row(&mut self, row: &Row)
        requires
            old(self).wf(),
        ensures
            final(self).wf(),
            final(self)@ == imported(old(self)@, *row),
    {
        let prereq_names = parse_list(row.prereq_concepts.as_str());
        let prereqs = self.concepts_by_names(&prereq_names);
        let new_names = parse_list(row.new_concepts.as_str());
        let new_ids = self.concepts_by_names(&new_names);
        let representation_names = parse_list(row.representations.as_str());
        let representations = self.representations_by_names(&representation_names);
        if !row.course_number.as_str().is_empty() {
            self.course_by_name_or_create(row.course_number.as_str());
        }
        proof {
            assert(texts(prereq_names@).len() == prereq_names@.len());
            assert(texts(new_names@).len() == new_names@.len());
            assert(texts(representation_names@).len() == representation_names@.len());
        }
        if same_text(row.thingtype.as_str(), "Concept") || same_text(
            row.thingtype.as_str(),
            "concept",
        ) {
            self.import_concept(row, prereqs, representations);
        } else if same_text(row.thingtype.as_str(), "Activity") || same_text(
            row.thingtype.as_str(),
            "activity",
        ) {
            self.import_activity(row, prereqs, new_ids, representations);
        }
    }
}

} // verus!
