use progression_website::activity::Activity;
use progression_website::concept::{keys_of, Concept};
use progression_website::data::{
    holds_activity, ActivityGroup, ChangeRelationship, Child, Course, Data,
};
use progression_website::ids::{
    ActivityID, ConceptID, ConceptRepresentationID, CourseID, RepresentationID,
};
use progression_website::markdown::Markdown;
use progression_website::representation::{Icon, Representation};
use std::collections::BTreeMap;

fn plain(c: usize) -> ConceptRepresentationID {
    ConceptRepresentationID { concept: ConceptID(c), representation: None }
}

fn shown(c: usize, r: usize) -> ConceptRepresentationID {
    ConceptRepresentationID { concept: ConceptID(c), representation: Some(RepresentationID(r)) }
}

fn concept(id: usize, name: &str, prereqs: &[usize]) -> Concept {
    Concept {
        id: ConceptID(id),
        name: name.to_string(),
        prereq_concepts: prereqs.iter().map(|p| ConceptID(*p)).collect(),
        representations: BTreeMap::new(),
        figure: None,
        long_description: String::new(),
    }
}

fn activity(id: usize, name: &str, asks: &[usize], teaches: &[usize], uses: &[usize]) -> Activity {
    Activity {
        id: ActivityID(id),
        name: name.to_string(),
        prereq_concepts: asks.iter().map(|c| plain(*c)).collect(),
        new_concepts: teaches.iter().map(|c| plain(*c)).collect(),
        representations: uses.iter().map(|r| RepresentationID(*r)).collect(),
        long_description: Markdown::new(""),
        figure: None,
        external_url: None,
    }
}

fn course(id: usize, number: &str, name: &str, activities: &[usize]) -> Course {
    Course {
        id: CourseID(id),
        number: number.to_string(),
        name: name.to_string(),
        activities: activities.iter().map(|a| ActivityID(*a)).collect(),
    }
}

fn sample() -> Data {
    let mut energy = concept(0, "Energy", &[]);
    energy.add_representation(RepresentationID(0));
    Data {
        concepts: vec![
            energy,
            concept(1, "Entropy", &[0]),
            concept(2, "Heat", &[0, 1]),
            concept(3, "Orphan", &[]),
        ],
        activities: vec![
            activity(0, "Ice lab", &[0], &[1], &[0]),
            activity(1, "Heat lab", &[1], &[2], &[]),
            activity(2, "Extra", &[0], &[], &[]),
        ],
        representations: vec![
            Representation {
                id: RepresentationID(0),
                name: "PV Diagram".to_string(),
                description: Markdown::new("pressure against volume"),
                icon: Icon::Html("pv".to_string()),
            },
            Representation {
                id: RepresentationID(1),
                name: "Unused".to_string(),
                description: Markdown::new(""),
                icon: Icon::Fig("figs/u.png".to_string()),
            },
        ],
        courses: vec![
            course(0, "PH 423", "Energy and Entropy", &[0]),
            course(1, "PH 422", "Static Fields", &[1, 2]),
        ],
    }
}

#[test]
fn a_new_store_is_empty() {
    let d = Data::new();
    assert!(d.concepts.is_empty());
    assert!(d.activities.is_empty());
    assert!(d.representations.is_empty());
    assert!(d.courses.is_empty());
    assert!(d.is_linked());
}

#[test]
fn concepts_are_found_by_name_or_number() {
    let d = sample();
    assert_eq!(d.concept_by_name("Heat"), Some(ConceptID(2)));
    assert_eq!(d.concept_by_name("  Heat\t"), Some(ConceptID(2)));
    assert_eq!(d.concept_by_name("3"), Some(ConceptID(3)));
    assert_eq!(d.concept_by_name(" +1 "), Some(ConceptID(1)));
    assert_eq!(d.concept_by_name("4"), None);
    assert_eq!(d.concept_by_name("heat"), None);
    assert_eq!(d.concept_by_name(""), None);
    // a concept that is named like a number comes first where it stands first
    let mut d = sample();
    d.concepts[0].name = "2".to_string();
    assert_eq!(d.concept_by_name("2"), Some(ConceptID(0)));
}

#[test]
fn the_other_things_are_found_by_name() {
    let d = sample();
    assert_eq!(d.activity_by_name("Heat lab"), Some(ActivityID(1)));
    assert_eq!(d.activity_by_name(" Heat lab"), None);
    assert_eq!(d.activity_by_name("1"), None);
    assert_eq!(d.representation_by_name("PV Diagram"), Some(RepresentationID(0)));
    assert_eq!(d.representation_by_name("PV"), None);
    assert_eq!(d.course_by_name("PH 422"), Some(CourseID(1)));
    assert_eq!(d.course_by_name(" Static Fields "), Some(CourseID(1)));
    assert_eq!(d.course_by_name("Energy and Entropy"), Some(CourseID(0)));
    assert_eq!(d.course_by_name("PH"), None);
}

#[test]
fn missing_things_are_made() {
    let mut d = sample();
    assert_eq!(d.concept_by_name_or_create("Heat"), ConceptID(2));
    assert_eq!(d.concepts.len(), 4);
    assert_eq!(d.concept_by_name_or_create(" Work "), ConceptID(4));
    assert_eq!(d.concepts[4], concept(4, "Work", &[]));
    assert_eq!(d.activity_by_name_or_create("Extra"), ActivityID(2));
    assert_eq!(d.activity_by_name_or_create(" Extra"), ActivityID(3));
    assert_eq!(d.activities[3], activity(3, " Extra", &[], &[], &[]));
    assert_eq!(d.representation_by_name_or_create("Unused"), RepresentationID(1));
    assert_eq!(d.representation_by_name_or_create("Graph"), RepresentationID(2));
    assert_eq!(
        d.representations[2],
        Representation {
            id: RepresentationID(2),
            name: "Graph".to_string(),
            description: Markdown::new(""),
            icon: Icon::Html("Graph".to_string()),
        }
    );
    assert_eq!(d.course_by_name_or_create("PH 423"), CourseID(0));
    assert_eq!(d.course_by_name_or_create(" MTH 255 "), CourseID(2));
    assert_eq!(d.courses[2], course(2, "MTH 255", "Vector Calculus", &[]));
    assert_eq!(d.course_by_name_or_create("MTH 251"), CourseID(3));
    assert_eq!(d.courses[3].name, "Differential Calculus");
    assert_eq!(d.course_by_name_or_create("MTH 254"), CourseID(4));
    assert_eq!(d.courses[4].name, "Multivariable Calculus");
    assert_eq!(d.course_by_name_or_create("CH 101"), CourseID(5));
    assert_eq!(d.courses[5], course(5, "CH 101", "CH 101", &[]));
    assert!(d.is_linked());
}

#[test]
fn a_course_has_its_anchor() {
    let mut d = Data::new();
    assert_eq!(d.lower_anchor("PH 422"), ActivityID(0));
    assert_eq!(d.courses[0], course(0, "PH 422", "Static Fields", &[0]));
    assert_eq!(d.activities[0].name, "lower anchor PH 422");
    assert_eq!(d.lower_anchor("PH 422"), ActivityID(0));
    assert_eq!(d.lower_anchor("Static Fields"), ActivityID(1));
    assert_eq!(d.activities[1].name, "lower anchor Static Fields");
    assert_eq!(d.courses.len(), 1);
    assert_eq!(d.courses[0].activities, vec![ActivityID(0), ActivityID(1)]);
}

#[test]
fn activities_are_added_to_a_course_once() {
    let mut d = sample();
    d.add_to_course(CourseID(0), ActivityID(2));
    d.add_to_course(CourseID(0), ActivityID(0));
    d.add_to_course(CourseID(0), ActivityID(2));
    assert_eq!(d.courses[0].activities, vec![ActivityID(0), ActivityID(2)]);
    assert_eq!(d.courses[1], sample().courses[1]);
    assert!(holds_activity(&d.courses[0].activities, ActivityID(2)));
    assert!(!holds_activity(&d.courses[0].activities, ActivityID(1)));
}

#[test]
fn things_are_read_and_replaced_by_identifier() {
    let mut d = sample();
    assert_eq!(d.get(ConceptID(2)).name, "Heat");
    assert_eq!(d.get(ActivityID(1)).name, "Heat lab");
    assert_eq!(d.get(RepresentationID(0)).name, "PV Diagram");
    assert_eq!(d.get(CourseID(1)).number, "PH 422");
    d.get_mut(ConceptID(2)).name = "Warmth".to_string();
    d.get_mut(CourseID(1)).number = "PH 424".to_string();
    d.get_mut(RepresentationID(1)).name = "Table".to_string();
    d.get_activity(ActivityID(1)).new_concepts.push(plain(3));
    d.get_mut(ActivityID(0)).figure = Some("f".to_string());
    assert_eq!(d.concepts[2].name, "Warmth");
    assert_eq!(d.courses[1].number, "PH 424");
    assert_eq!(d.representations[1].name, "Table");
    assert_eq!(d.activities[1].new_concepts, vec![plain(2), plain(3)]);
    assert_eq!(d.activities[0].figure, Some("f".to_string()));
    d.set_concept(concept(1, "Disorder", &[3]));
    assert_eq!(d.concepts[1], concept(1, "Disorder", &[3]));
    assert_eq!(d.concepts[0].name, "Energy");
    d.set_activity(activity(0, "Melt", &[], &[0], &[]));
    assert_eq!(d.activities[0], activity(0, "Melt", &[], &[0], &[]));
    assert_eq!(d.activities.len(), 3);
}

#[test]
fn a_concept_takes_a_representation_afresh() {
    let mut c = concept(0, "Energy", &[]);
    c.add_representation(RepresentationID(5));
    c.add_representation(RepresentationID(2));
    assert_eq!(keys_of(&c.representations), vec![2, 5]);
    c.representations.get_mut(&5).unwrap().name = "E".to_string();
    c.add_representation(RepresentationID(5));
    assert_eq!(c.representations[&5].name, "");
    assert_eq!(keys_of(&c.representations), vec![2, 5]);
    assert_eq!(keys_of(&BTreeMap::<usize, u8>::new()), Vec::<usize>::new());
}

#[test]
fn a_change_of_relationship_names_both_things() {
    assert_eq!(ChangeRelationship::default(), ChangeRelationship::none());
    let none = ChangeRelationship::none();
    assert_eq!(
        none,
        ChangeRelationship {
            parentid: String::new(),
            verb: String::new(),
            childid: String::new(),
            relationship: String::new(),
        }
    );
    let p = ChangeRelationship::parent("c1".to_string(), "Add", "prereq");
    assert_eq!((p.parentid.as_str(), p.verb.as_str(), p.childid.as_str(), p.relationship.as_str()),
        ("c1", "Add", "", "prereq"));
    let c = p.child("c2".to_string());
    assert_eq!((c.parentid.as_str(), c.verb.as_str(), c.childid.as_str(), c.relationship.as_str()),
        ("c1", "Add", "c2", "prereq"));
}

#[test]
fn a_shown_thing_knows_how_it_can_be_changed() {
    let a = Child::add("c1".to_string(), "taught by", activity(4, "Lab", &[], &[], &[]));
    assert_eq!((a.parentid.as_str(), a.verb.as_str(), a.relationship.as_str()), ("c1", "Add", "taught by"));
    assert!(!a.show_detail);
    assert_eq!(a.extra_class, "");
    assert_eq!(a.html_id, None);
    // the thing itself is at hand
    assert_eq!(a.name, "Lab");
    let r = a.addremove();
    assert_eq!((r.parentid.as_str(), r.verb.as_str(), r.childid.as_str(), r.relationship.as_str()),
        ("c1", "Add", "a4", "taught by"));
    let a = a.with_detail().set_verb("Remove").with_class("wide".to_string()).with_html_id("x".to_string());
    assert!(a.show_detail);
    assert_eq!(a.verb, "Remove");
    assert_eq!(a.extra_class, "wide");
    assert_eq!(a.html_id, Some("x".to_string()));
    assert_eq!(a.parentid, "c1");
    assert_eq!(a.child.id, ActivityID(4));

    let n = Child::none(concept(3, "Heat", &[]));
    assert_eq!((n.parentid.as_str(), n.verb.as_str(), n.relationship.as_str()), ("", "", ""));
    assert_eq!(n.addremove().childid, "c3");
    let r = Child::remove("a1".to_string(), "uses", sample().representations.remove(0));
    assert_eq!(r.verb, "Remove");
    assert_eq!(r.addremove().childid, "r0");
    let n = Child::new("p".to_string(), "v", "r", 7u8);
    assert_eq!((n.child, n.verb.as_str()), (7, "v"));
    // shown things are the same where they show the thing of one identifier
    let x = Child::add("c1".to_string(), "prereq", concept(3, "Heat", &[]));
    let y = Child::remove("c2".to_string(), "needed for", concept(3, "Warmth", &[]));
    let z = Child::add("c1".to_string(), "prereq", concept(4, "Heat", &[]));
    assert!(x == y);
    assert!(x != z);
}

#[test]
fn a_group_is_shown_in_detail() {
    let d = sample();
    let groups = d.group_concepts(&vec![plain(1), plain(2)], "c0", "needed for");
    assert!(groups.iter().all(|g| g.concepts.iter().all(|c| !c.show_detail)));
    let shown: Vec<ActivityGroup> = groups.into_iter().map(|g| g.with_detail()).collect();
    assert_eq!(shown.len(), 2);
    assert!(shown.iter().all(|g| g.concepts.iter().all(|c| c.show_detail)));
    assert_eq!(shown[0].concepts[0].child.id, plain(1));
    assert_eq!(shown[1].concepts[0].child.id, plain(2));
    assert_eq!(shown[0].activity.as_ref().unwrap().child.id, ActivityID(0));
}

#[test]
fn copies_are_equal() {
    let d = sample();
    assert_eq!(d.courses[1].clone(), d.courses[1]);
    assert_eq!(d.activities[0].clone(), d.activities[0]);
    assert_eq!(d.concepts[0].clone(), d.concepts[0]);
    assert_eq!(d.representations[1].clone(), d.representations[1]);
}
