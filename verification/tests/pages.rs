use progression_website::activity::Activity;
use progression_website::concept::{Concept, ConceptRepresentationView};
use progression_website::data::{ActivityGroup, Child, Course, Data, PrereqCourse};
use progression_website::ids::{
    ActivityID, ConceptID, ConceptRepresentationID, CourseID, RepresentationID,
};
use progression_website::markdown::Markdown;
use progression_website::pages::{as_plain, asks, copy_concepts, holds_plain, leads_to};
use progression_website::representation::{Icon, Representation};
use std::collections::BTreeMap;

fn plain(c: usize) -> ConceptRepresentationID {
    ConceptRepresentationID { concept: ConceptID(c), representation: None }
}

fn shown(c: usize, r: usize) -> ConceptRepresentationID {
    ConceptRepresentationID { concept: ConceptID(c), representation: Some(RepresentationID(r)) }
}

fn concept(id: usize, name: &str, prereqs: &[usize]) -> Concept {
    Concept {
        id: ConceptID(id),
        name: name.to_string(),
        prereq_concepts: prereqs.iter().map(|p| ConceptID(*p)).collect(),
        representations: BTreeMap::new(),
        figure: None,
        long_description: String::new(),
    }
}

fn activity(id: usize, name: &str, asks: &[usize], teaches: &[usize], uses: &[usize]) -> Activity {
    Activity {
        id: ActivityID(id),
        name: name.to_string(),
        prereq_concepts: asks.iter().map(|c| plain(*c)).collect(),
        new_concepts: teaches.iter().map(|c| plain(*c)).collect(),
        representations: uses.iter().map(|r| RepresentationID(*r)).collect(),
        long_description: Markdown::new(""),
        figure: None,
        external_url: None,
    }
}

fn course(id: usize, number: &str, name: &str, activities: &[usize]) -> Course {
    Course {
        id: CourseID(id),
        number: number.to_string(),
        name: name.to_string(),
        activities: activities.iter().map(|a| ActivityID(*a)).collect(),
    }
}

fn sample() -> Data {
    let mut energy = concept(0, "Energy", &[]);
    energy.add_representation(RepresentationID(0));
    Data {
        concepts: vec![
            energy,
            concept(1, "Entropy", &[0]),
            concept(2, "Heat", &[0, 1]),
            concept(3, "Orphan", &[]),
        ],
        activities: vec![
            activity(0, "Ice lab", &[0], &[1], &[0]),
            activity(1, "Heat lab", &[1], &[2], &[]),
            activity(2, "Extra", &[0], &[], &[]),
        ],
        representations: vec![
            Representation {
                id: RepresentationID(0),
                name: "PV Diagram".to_string(),
                description: Markdown::new("pressure against volume"),
                icon: Icon::Html("pv".to_string()),
            },
            Representation {
                id: RepresentationID(1),
                name: "Unused".to_string(),
                description: Markdown::new(""),
                icon: Icon::Fig("figs/u.png".to_string()),
            },
        ],
        courses: vec![
            course(0, "PH 423", "Energy and Entropy", &[0]),
            course(1, "PH 422", "Static Fields", &[1, 2]),
        ],
    }
}

fn no() -> Vec<ConceptRepresentationID> {
    Vec::new()
}

fn ids(v: &Vec<Child<ConceptRepresentationView>>) -> Vec<ConceptRepresentationID> {
    v.iter().map(|c| c.child.id).collect()
}

fn shape(g: &ActivityGroup) -> (Option<usize>, Vec<ConceptRepresentationID>, Vec<ConceptRepresentationID>) {
    (g.activity.as_ref().map(|a| a.child.id.0), ids(&g.concepts), ids(&g.hint_concepts))
}

fn shapes(gs: &Vec<ActivityGroup>) -> Vec<(Option<usize>, Vec<ConceptRepresentationID>, Vec<ConceptRepresentationID>)> {
    gs.iter().map(shape).collect()
}

fn courses(v: &Vec<PrereqCourse>) -> Vec<(usize, Vec<ConceptRepresentationID>)> {
    v.iter().map(|p| (p.course.id.0, ids(&p.concepts))).collect()
}

#[test]
fn a_concept_is_viewed_with_what_it_asks_for() {
    let d = sample();
    let v = d.concept_view(ConceptID(2));
    assert_eq!(v.id, ConceptID(2));
    assert_eq!(v.name, "Heat");
    assert_eq!(v.all_concepts, d.concepts);
    assert_eq!(v.all_activities, d.activities);
    assert_eq!(v.representation_choice.class, "representation");
    assert_eq!(v.representation_choice.id, "c2");
    assert_eq!(v.representation_choice.field, "representation");
    assert_eq!(v.representation_choice.choices, vec!["PV Diagram", "Unused"]);
    assert_eq!(v.activities, vec![d.activities[1].clone()]);
    // the course before teaches entropy, so only energy is left to ask for
    assert_eq!(courses(&v.prereq_courses), vec![(0, vec![plain(1)])]);
    assert_eq!(v.prereq_courses[0].concepts[0].parentid, "c2");
    assert_eq!(v.prereq_courses[0].concepts[0].relationship, "prereq");
    assert_eq!(v.prereq_concepts, vec![ConceptID(0)]);
    assert_eq!(shapes(&v.prereq_groups), vec![(None, vec![plain(0)], no())]);
    assert!(v.needed_for_concepts.is_empty());
    assert!(v.output_groups.is_empty());
    assert!(v.representations.is_empty());
    assert_eq!(v.courses, vec![d.courses[1].clone()]);
}

#[test]
fn a_concept_is_viewed_with_what_asks_for_it() {
    let d = sample();
    let v = d.concept_view(ConceptID(0));
    assert!(v.prereq_courses.is_empty());
    assert!(v.prereq_concepts.is_empty());
    assert!(v.prereq_groups.is_empty());
    assert_eq!(v.needed_for_concepts, vec![ConceptID(1), ConceptID(2)]);
    assert_eq!(
        shapes(&v.output_groups),
        vec![
            (Some(0), vec![plain(1)], no()),
            (Some(1), vec![plain(2)], no()),
            (Some(2), no(), no()),
        ]
    );
    assert_eq!(v.output_groups[0].concepts[0].relationship, "needed for");
    assert_eq!(shapes(&v.representations), vec![(None, vec![shown(0, 0)], no())]);
    assert_eq!(v.representations[0].concepts[0].relationship, "with");
    assert!(v.activities.is_empty());
    assert!(v.courses.is_empty());
}

#[test]
fn a_viewed_concept_offers_choices() {
    let d = sample();
    let v = d.concept_view(ConceptID(1));
    assert_eq!(v.prereq_concepts, vec![ConceptID(0)]);
    assert_eq!(v.needed_for_concepts, vec![ConceptID(2)]);
    let ch = v.possibly_needed_for_concepts();
    assert_eq!((ch.id.as_str(), ch.field.as_str()), ("c1", "needed for"));
    let names: Vec<&str> = ch.choices.iter().map(|c| c.name.as_str()).collect();
    assert_eq!(names, vec!["Entropy", "Orphan"]);
    let ch = v.possibly_prereq_concepts();
    assert_eq!((ch.id.as_str(), ch.field.as_str()), ("c1", "prereq"));
    let names: Vec<&str> = ch.choices.iter().map(|c| c.name.as_str()).collect();
    assert_eq!(names, vec!["Entropy", "Orphan"]);
    let ch = v.possible_activities();
    assert_eq!((ch.id.as_str(), ch.field.as_str()), ("c1", "taught by"));
    let names: Vec<&str> = ch.choices.iter().map(|a| a.name.as_str()).collect();
    assert_eq!(names, vec!["Heat lab", "Extra"]);
}

#[test]
fn an_activity_is_viewed_with_its_relationships() {
    let d = sample();
    let v = d.activity_view(ActivityID(1));
    assert_eq!(v.id, ActivityID(1));
    assert_eq!(v.name, "Heat lab");
    assert_eq!(v.choices.id, "a1");
    assert_eq!(v.choices.field, "???");
    assert_eq!(
        v.choices.choices,
        vec!["Energy", "Energy using pv diagram", "Entropy", "Heat", "Orphan"]
    );
    assert_eq!(v.representation_choice.id, "a1");
    assert_eq!(v.representation_choice.choices, vec!["PV Diagram", "Unused"]);
    assert_eq!(courses(&v.prereq_courses), vec![(0, vec![plain(1)])]);
    assert!(v.prereq_groups.is_empty());
    assert_eq!(ids(&v.new_concepts), vec![plain(2)]);
    assert_eq!(v.new_concepts[0].relationship, "new");
    assert_eq!(shapes(&v.output_groups), vec![(Some(1), vec![plain(2)], no())]);
    assert!(v.representations.is_empty());
    assert_eq!(v.courses, vec![d.courses[1].clone()]);
    assert_eq!(v.prereq_concepts(), vec![plain(1)]);
}

#[test]
fn an_activity_is_followed_by_those_that_ask_for_what_it_teaches() {
    let d = sample();
    let v = d.activity_view(ActivityID(0));
    assert!(v.prereq_courses.is_empty());
    assert!(v.prereq_groups.is_empty());
    assert_eq!(
        shapes(&v.output_groups),
        vec![(Some(0), vec![plain(1)], no()), (Some(1), no(), vec![plain(2)])]
    );
    assert_eq!(v.output_groups[0].concepts[0].relationship, "depends on");
    assert_eq!(v.representations.len(), 1);
    assert_eq!(v.representations[0].child, d.representations[0]);
    assert_eq!(v.representations[0].verb, "Remove");
    assert_eq!(v.representations[0].relationship, "uses");
    assert_eq!(v.representations[0].parentid, "a0");
    assert_eq!(v.courses, vec![d.courses[0].clone()]);
}

#[test]
fn what_a_course_of_the_activity_teaches_is_asked_for_inside() {
    let mut d = sample();
    // the course of the heat lab also holds the ice lab, which teaches entropy
    d.courses[1].activities.push(ActivityID(0));
    let v = d.activity_view(ActivityID(1));
    assert_eq!(shapes(&v.prereq_groups), vec![(Some(0), vec![plain(1)], no())]);
    assert_eq!(v.prereq_groups[0].concepts[0].relationship, "prereq");
    assert_eq!(courses(&v.prereq_courses), vec![(0, vec![plain(1)])]);
    let choice = v.choices_for("taught");
    assert_eq!((choice.id.as_str(), choice.field.as_str()), ("a1", "taught"));
    assert_eq!(choice.choices, v.choices.choices);
}

#[test]
fn a_representation_is_viewed_with_what_uses_it() {
    let mut d = sample();
    let v = d.representation_view(RepresentationID(0));
    assert_eq!(v.id, RepresentationID(0));
    assert_eq!(v.name, "PV Diagram");
    assert_eq!(v.description, Markdown::new("pressure against volume"));
    assert_eq!(v.icon, Icon::Html("pv".to_string()));
    assert_eq!(ids(&v.other_concepts), vec![shown(0, 0)]);
    assert_eq!(v.other_concepts[0].parentid, "r0");
    assert_eq!(shapes(&v.groups), vec![(Some(0), no(), vec![plain(1)])]);
    assert_eq!(v.groups[0].activity.as_ref().unwrap().relationship, "used by");

    // taught in that representation by an activity that uses it
    d.activities[0].new_concepts.push(shown(0, 0));
    let v = d.representation_view(RepresentationID(0));
    assert!(v.other_concepts.is_empty());
    assert_eq!(shapes(&v.groups), vec![(Some(0), vec![shown(0, 0)], vec![plain(1)])]);

    let v = d.representation_view(RepresentationID(1));
    assert!(v.other_concepts.is_empty());
    assert!(v.groups.is_empty());
}

#[test]
fn a_course_is_a_sequence_of_its_activities() {
    let d = sample();
    let s = d.course_sequence(CourseID(1));
    assert_eq!(s.course, d.courses[1]);
    assert!(s.prereq_courses.is_empty());
    assert_eq!((s.new_activity.id.as_str(), s.new_activity.field.as_str()), ("C1", "activity"));
    assert_eq!(s.new_activity.choices, vec![d.activities[0].clone()]);
    assert_eq!(s.groups.len(), 2);
    assert_eq!(s.groups[0].activity.child.id, ActivityID(1));
    assert_eq!(s.groups[0].activity.parentid, "C1");
    assert_eq!(s.groups[0].activity.verb, "Remove");
    assert_eq!(s.groups[0].activity.relationship, "teaches");
    assert_eq!(ids(&s.groups[0].concepts), vec![plain(2)]);
    assert_eq!(s.groups[0].concepts[0].parentid, "a1");
    assert_eq!(s.groups[0].concepts[0].relationship, "new");
    assert_eq!(s.groups[1].activity.child.id, ActivityID(2));
    assert!(s.groups[1].concepts.is_empty());
}

#[test]
fn a_course_is_viewed_with_the_courses_before_it() {
    let d = sample();
    let v = d.course_view(CourseID(1));
    assert_eq!(v.groups.len(), 2);
    assert_eq!(courses(&v.prereq_courses), vec![(0, vec![plain(1)])]);
    assert_eq!(v.prereq_courses[0].concepts[0].parentid, "C1");
    assert_eq!(v.prereq_courses[0].concepts[0].relationship, "prereq");
    let v = d.course_view(CourseID(0));
    assert!(v.prereq_courses.is_empty());
    assert_eq!(v.new_activity.choices, vec![d.activities[1].clone(), d.activities[2].clone()]);
}

#[test]
fn the_progression_holds_the_long_courses() {
    let mut d = sample();
    d.activities[0].new_concepts.push(shown(0, 0));
    d.activities[0].new_concepts.push(plain(0));
    let v = d.progression_view();
    assert_eq!(v.courses.len(), 1);
    assert_eq!(v.courses[0].course, d.courses[1]);
    assert_eq!(v.courses[0].groups.len(), 2);
    assert_eq!(
        courses(&v.prereq_courses),
        vec![(0, vec![plain(0), shown(0, 0), plain(1)])]
    );
    assert_eq!(v.prereq_courses[0].concepts[0].parentid, "C0");
    assert_eq!(v.prereq_courses[0].concepts[0].relationship, "");
}

#[test]
fn small_questions_about_concepts_and_activities() {
    let d = sample();
    assert!(holds_plain(&vec![ConceptID(1), ConceptID(2)], ConceptID(2)));
    assert!(!holds_plain(&vec![ConceptID(1), ConceptID(2)], ConceptID(0)));
    assert_eq!(as_plain(&vec![ConceptID(4), ConceptID(1)]), vec![plain(4), plain(1)]);
    assert_eq!(copy_concepts(&d.concepts), d.concepts);
    assert!(asks(&d.activities[0], ConceptID(0)));
    assert!(!asks(&d.activities[0], ConceptID(1)));
    let mut a = activity(5, "x", &[], &[], &[]);
    a.prereq_concepts.push(shown(3, 1));
    assert!(asks(&a, ConceptID(3)));
    // the heat lab asks for what the ice lab teaches
    assert!(leads_to(&d.activities[0], &d.activities[1]));
    assert!(!leads_to(&d.activities[1], &d.activities[0]));
    assert!(!leads_to(&d.activities[0], &d.activities[2]));
    assert_eq!(d.pick(&vec![ConceptID(2), ConceptID(0), ConceptID(9)]), vec![ConceptID(0), ConceptID(2)]);
    assert_eq!(d.dependents_of(ConceptID(0)), vec![ConceptID(1), ConceptID(2)]);
    assert!(d.dependents_of(ConceptID(3)).is_empty());
    assert_eq!(d.names_of_representations(), vec!["PV Diagram", "Unused"]);
    assert_eq!(
        d.those_taught_in(&vec![ConceptID(0), ConceptID(1), ConceptID(2)], CourseID(0)),
        vec![ConceptID(1)]
    );
    assert!(d.is_taught_beside(plain(2), ActivityID(2)));
    assert!(!d.is_taught_beside(plain(1), ActivityID(2)));
    assert!(!d.is_taught_with(plain(1), RepresentationID(1)));
    assert!(d.is_taught_with(plain(1), RepresentationID(0)));
    let c: Vec<usize> = d.courses_of_activity(ActivityID(2)).iter().map(|c| c.id.0).collect();
    assert_eq!(c, vec![1]);
    assert_eq!(d.taught_set(1), vec![plain(2)]);
    assert_eq!(d.asked_set(1), vec![plain(0), plain(1)]);
    assert_eq!(d.keep_taught(&vec![plain(0), plain(1), plain(2)], CourseID(0)), vec![plain(1)]);
}
