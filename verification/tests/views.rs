use progression_website::activity::Activity;
use progression_website::concept::Concept;
use progression_website::data::{ActivityGroup, Child, Course, Data};
use progression_website::ids::{
    ActivityID, ConceptID, ConceptRepresentationID, CourseID, RepresentationID,
};
use progression_website::markdown::Markdown;
use progression_website::representation::{Icon, Representation};
use progression_website::views::{
    arrange, drop_concept, find_group, holds_concept, holds_representation, insert_id,
    sort_concepts,
};
use std::collections::BTreeMap;

fn plain(c: usize) -> ConceptRepresentationID {
    ConceptRepresentationID { concept: ConceptID(c), representation: None }
}

fn shown(c: usize, r: usize) -> ConceptRepresentationID {
    ConceptRepresentationID { concept: ConceptID(c), representation: Some(RepresentationID(r)) }
}

fn concept(id: usize, name: &str, prereqs: &[usize]) -> Concept {
    Concept {
        id: ConceptID(id),
        name: name.to_string(),
        prereq_concepts: prereqs.iter().map(|p| ConceptID(*p)).collect(),
        representations: BTreeMap::new(),
        figure: None,
        long_description: String::new(),
    }
}

fn activity(id: usize, name: &str, asks: &[usize], teaches: &[usize], uses: &[usize]) -> Activity {
    Activity {
        id: ActivityID(id),
        name: name.to_string(),
        prereq_concepts: asks.iter().map(|c| plain(*c)).collect(),
        new_concepts: teaches.iter().map(|c| plain(*c)).collect(),
        representations: uses.iter().map(|r| RepresentationID(*r)).collect(),
        long_description: Markdown::new(""),
        figure: None,
        external_url: None,
    }
}

fn course(id: usize, number: &str, name: &str, activities: &[usize]) -> Course {
    Course {
        id: CourseID(id),
        number: number.to_string(),
        name: name.to_string(),
        activities: activities.iter().map(|a| ActivityID(*a)).collect(),
    }
}

fn sample() -> Data {
    let mut energy = concept(0, "Energy", &[]);
    energy.add_representation(RepresentationID(0));
    Data {
        concepts: vec![
            energy,
            concept(1, "Entropy", &[0]),
            concept(2, "Heat", &[0, 1]),
            concept(3, "Orphan", &[]),
        ],
        activities: vec![
            activity(0, "Ice lab", &[0], &[1], &[0]),
            activity(1, "Heat lab", &[1], &[2], &[]),
            activity(2, "Extra", &[0], &[], &[]),
        ],
        representations: vec![
            Representation {
                id: RepresentationID(0),
                name: "PV Diagram".to_string(),
                description: Markdown::new("pressure against volume"),
                icon: Icon::Html("pv".to_string()),
            },
            Representation {
                id: RepresentationID(1),
                name: "Unused".to_string(),
                description: Markdown::new(""),
                icon: Icon::Fig("figs/u.png".to_string()),
            },
        ],
        courses: vec![
            course(0, "PH 423", "Energy and Entropy", &[0]),
            course(1, "PH 422", "Static Fields", &[1, 2]),
        ],
    }
}

fn no() -> Vec<ConceptRepresentationID> {
    Vec::new()
}

fn ids(v: &Vec<Child<progression_website::concept::ConceptRepresentationView>>) -> Vec<ConceptRepresentationID> {
    v.iter().map(|c| c.child.id).collect()
}

fn shape(g: &ActivityGroup) -> (Option<usize>, Vec<ConceptRepresentationID>, Vec<ConceptRepresentationID>) {
    (g.activity.as_ref().map(|a| a.child.id.0), ids(&g.concepts), ids(&g.hint_concepts))
}

#[test]
fn the_sample_is_sound() {
    let d = sample();
    assert!(d.is_wf());
    assert!(d.is_linked());
    assert!(d.is_known(plain(3)));
    assert!(d.is_known(shown(0, 0)));
    assert!(!d.is_known(shown(1, 0)));
    assert!(!d.is_known(shown(0, 1)));
    assert!(!d.is_known(plain(4)));
    assert!(d.all_known(&vec![plain(0), shown(0, 0)]));
    assert!(!d.all_known(&vec![plain(0), shown(0, 7)]));
}

#[test]
fn a_dangling_identifier_is_found() {
    let mut d = sample();
    d.concepts[1].prereq_concepts.push(ConceptID(9));
    assert!(d.is_wf());
    assert!(!d.is_linked());
    let mut d = sample();
    d.activities[0].representations.push(RepresentationID(2));
    assert!(!d.is_linked());
    let mut d = sample();
    d.courses[0].activities.push(ActivityID(3));
    assert!(!d.is_linked());
    let mut d = sample();
    d.activities[1].new_concepts.push(shown(2, 0));
    assert!(!d.is_linked());
    let mut d = sample();
    d.concepts.swap(0, 1);
    assert!(!d.is_wf());
    assert!(!d.is_linked());
}

#[test]
fn a_concept_in_a_representation_is_named_after_both() {
    let mut d = sample();
    assert_eq!(d.name_it(plain(0)), "Energy");
    assert_eq!(d.name_it(shown(0, 0)), "Energy using pv diagram");
    d.concepts[0].representations.get_mut(&0).unwrap().name = "PV of energy".to_string();
    assert_eq!(d.name_it(shown(0, 0)), "PV of energy");
}

#[test]
fn courses_teach_what_their_activities_teach() {
    let d = sample();
    assert!(d.course_is_for_concept(plain(1), CourseID(0)));
    assert!(!d.course_is_for_concept(plain(2), CourseID(0)));
    assert!(d.course_is_for_concept(plain(2), CourseID(1)));
    assert!(!d.course_is_for_concept(plain(0), CourseID(1)));
    assert_eq!(d.courses_for_concept(ConceptID(2)), vec![CourseID(1)]);
    assert_eq!(d.courses_for_concept(ConceptID(1)), vec![CourseID(0)]);
    assert!(d.courses_for_concept(ConceptID(0)).is_empty());
}

#[test]
fn representations_are_used_by_concepts_and_activities() {
    let mut d = sample();
    assert!(d.representation_used(RepresentationID(0)));
    assert!(!d.representation_used(RepresentationID(1)));
    d.activities[2].representations.push(RepresentationID(1));
    assert!(d.representation_used(RepresentationID(1)));
    let all = sample().all_representations();
    assert_eq!(all.len(), 2);
    assert_eq!((all[0].child.id, all[0].verb.as_str()), (RepresentationID(0), ""));
    assert_eq!((all[1].child.id, all[1].verb.as_str()), (RepresentationID(1), "Remove"));
    assert_eq!(all[1].relationship, "exists");
    assert_eq!(all[1].parentid, "r1");
    let mut d = sample();
    d.representations[1].name = String::new();
    assert_eq!(d.all_representations().len(), 1);
}

#[test]
fn activities_teach_concepts() {
    let mut d = sample();
    d.activities[0].new_concepts.push(plain(2));
    assert_eq!(d.teachers_of(plain(2)), vec![ActivityID(0), ActivityID(1)]);
    assert_eq!(d.teachers_of(plain(1)), vec![ActivityID(0)]);
    assert!(d.teachers_of(plain(0)).is_empty());
    assert!(d.teachers_of(shown(0, 0)).is_empty());
    let by: Vec<usize> = d.taught_by(plain(2)).iter().map(|a| a.id.0).collect();
    assert_eq!(by, vec![0, 1]);
    assert_eq!(d.taught_by(plain(2))[1], d.activities[1]);
}

#[test]
fn a_concept_is_shown_as_something_to_remove() {
    let d = sample();
    let v = d.concept_representation_view("a1".to_string(), "prereq", plain(1));
    assert_eq!(v.parentid, "a1");
    assert_eq!(v.verb, "Remove");
    assert_eq!(v.relationship, "prereq");
    assert!(!v.show_detail);
    assert_eq!(v.extra_class, "");
    assert_eq!(v.html_id, None);
    assert_eq!(v.child.id, plain(1));
    assert_eq!(v.child.name, "Entropy");
    assert_eq!(v.child.summary_name, "Entropy");
    assert_eq!(v.child.representation, None);
    assert_eq!(v.child.activities, vec![activity(0, "Ice lab", &[0], &[1], &[0])]);

    let v = d.concept_representation_view("c0".to_string(), "with", shown(0, 0));
    assert_eq!(v.child.id, shown(0, 0));
    assert_eq!(v.child.name, "");
    assert_eq!(v.child.summary_name, "Energy using pv diagram");
    assert_eq!(v.child.representation.as_ref().map(|r| r.name.as_str()), Some("PV Diagram"));
    assert!(v.child.activities.is_empty());
}

#[test]
fn concepts_are_grouped_by_the_activity_that_teaches_them() {
    let mut d = sample();
    d.activities[0].new_concepts.push(plain(2));
    let x = vec![plain(2), plain(1), plain(0), plain(3)];
    let groups = d.group_concepts(&x, "c9", "prereq");
    let shapes: Vec<_> = groups.iter().map(shape).collect();
    assert_eq!(
        shapes,
        vec![
            (Some(0), vec![plain(1), plain(2)], no()),
            (None, vec![plain(0)], no()),
            (None, vec![plain(3)], no()),
        ]
    );
    let a = groups[0].activity.as_ref().unwrap();
    assert_eq!((a.parentid.as_str(), a.verb.as_str(), a.relationship.as_str()), ("c9", "Remove", "prereq"));
    assert_eq!(groups[0].concepts[0].verb, "Remove");
}

#[test]
fn a_group_hints_at_what_else_its_activity_teaches() {
    let mut d = sample();
    d.activities[0].new_concepts.push(plain(2));
    d.activities[0].new_concepts.push(plain(3));
    let groups = d.group_concepts(&vec![plain(3)], "c9", "prereq");
    let shapes: Vec<_> = groups.iter().map(shape).collect();
    assert_eq!(shapes, vec![(Some(0), vec![plain(3)], vec![plain(1), plain(2)])]);
    assert_eq!(groups[0].hint_concepts[0].verb, "Add");
    let groups = d.group_concepts(&vec![plain(3), plain(1)], "c9", "prereq");
    let shapes: Vec<_> = groups.iter().map(shape).collect();
    assert_eq!(shapes, vec![(Some(0), vec![plain(1), plain(3)], vec![plain(2)])]);
    // groups come in the order of their activities
    let groups = d.group_concepts(&vec![plain(0), plain(2), plain(1)], "c9", "prereq");
    let shapes: Vec<_> = groups.iter().map(shape).collect();
    assert_eq!(
        shapes,
        vec![(Some(0), vec![plain(1), plain(2)], vec![plain(3)]), (None, vec![plain(0)], no())]
    );
}

#[test]
fn hints_leave_one_concept_out() {
    let mut d = sample();
    d.activities[0].new_concepts.push(plain(2));
    let h = d.hints_for(0, Some(plain(1)), "x", "y");
    assert_eq!(ids(&h), vec![plain(2)]);
    assert_eq!(h[0].verb, "Add");
    assert_eq!(h[0].parentid, "x");
    assert_eq!(h[0].relationship, "y");
    assert_eq!(ids(&d.hints_for(0, None, "x", "y")), vec![plain(1), plain(2)]);
}

#[test]
fn an_activity_gets_a_group_of_its_own_once() {
    let d = sample();
    let mut groups = d.group_concepts(&vec![plain(1)], "c0", "needed for");
    d.extend_groups_with_activity(&mut groups, d.activities[0].clone(), "c0", "needed for");
    assert_eq!(groups.len(), 1);
    d.extend_groups_with_activity(&mut groups, d.activities[1].clone(), "c0", "needed for");
    d.extend_groups_with_activity(&mut groups, d.activities[1].clone(), "c0", "needed for");
    let shapes: Vec<_> = groups.iter().map(shape).collect();
    assert_eq!(
        shapes,
        vec![(Some(0), vec![plain(1)], no()), (Some(1), no(), vec![plain(2)])]
    );
    assert_eq!(groups[1].hint_concepts[0].verb, "Add");
}

#[test]
fn names_to_choose_from_are_sorted_and_unique() {
    let mut d = sample();
    d.concepts[3].name = "Energy".to_string();
    let ch = d.all_concept_representations("a1".to_string(), "???");
    assert_eq!(ch.id, "a1");
    assert_eq!(ch.field, "???");
    assert_eq!(ch.choices, vec!["Energy", "Energy using pv diagram", "Entropy", "Heat"]);
}

#[test]
fn the_store_lists_its_concepts_in_every_form() {
    let mut d = sample();
    d.concepts[2].add_representation(RepresentationID(1));
    d.concepts[2].add_representation(RepresentationID(0));
    assert_eq!(
        d.untaught_concept_representations(),
        vec![plain(0), shown(0, 0), plain(1), plain(2), shown(2, 0), shown(2, 1), plain(3)]
    );
}

#[test]
fn a_name_leads_back_to_the_concept() {
    let mut d = sample();
    assert_eq!(d.concept_representation_to_id("Heat"), Some(plain(2)));
    assert_eq!(d.concept_representation_to_id("Energy using pv diagram"), Some(shown(0, 0)));
    assert_eq!(d.concept_representation_to_id("heat"), None);
    assert_eq!(d.concept_representation_to_id(" Heat"), None);
    assert_eq!(d.concept_representation_to_id(""), None);
    d.concepts[3].name = "Energy using pv diagram".to_string();
    assert_eq!(d.concept_representation_to_id("Energy using pv diagram"), Some(plain(3)));
}

#[test]
fn identifiers_are_found_in_lists() {
    let v = vec![plain(1), shown(1, 2)];
    assert!(holds_concept(&v, plain(1)));
    assert!(holds_concept(&v, shown(1, 2)));
    assert!(!holds_concept(&v, shown(1, 1)));
    assert!(!holds_concept(&no(), plain(1)));
    let r = vec![RepresentationID(4)];
    assert!(holds_representation(&r, RepresentationID(4)));
    assert!(!holds_representation(&r, RepresentationID(3)));
}

#[test]
fn identifiers_are_kept_in_order_and_once() {
    let mut v = Vec::new();
    for id in [shown(1, 0), plain(2), plain(1), shown(0, 5), shown(1, 0), shown(0, 1), plain(1)] {
        insert_id(&mut v, id);
    }
    assert_eq!(v, vec![shown(0, 1), shown(0, 5), plain(1), shown(1, 0), plain(2)]);
    let mut sorted = v.clone();
    sorted.sort();
    assert_eq!(v, sorted);
}

#[test]
fn shown_concepts_are_sorted_and_dropped() {
    let d = sample();
    let v: Vec<_> = [plain(2), shown(0, 0), plain(0), plain(1), plain(0)]
        .iter()
        .map(|id| d.concept_representation_view("p".to_string(), "f", *id))
        .collect();
    let sorted = sort_concepts(v.clone());
    assert_eq!(ids(&sorted), vec![plain(0), plain(0), shown(0, 0), plain(1), plain(2)]);
    let left = drop_concept(v, plain(0));
    assert_eq!(ids(&left), vec![plain(2), shown(0, 0), plain(1)]);
}

#[test]
fn groups_are_found_and_arranged() {
    let d = sample();
    let mut groups = d.group_concepts(&vec![plain(3), plain(2), plain(1)], "p", "f");
    assert_eq!(find_group(&groups, &vec![ActivityID(1)]), Some(1));
    assert_eq!(find_group(&groups, &vec![ActivityID(2), ActivityID(0)]), Some(0));
    assert_eq!(find_group(&groups, &vec![ActivityID(2)]), None);
    assert_eq!(find_group(&groups, &Vec::new()), None);
    groups.reverse();
    let shapes: Vec<_> = arrange(groups).iter().map(shape).collect();
    assert_eq!(
        shapes,
        vec![
            (Some(0), vec![plain(1)], no()),
            (Some(1), vec![plain(2)], no()),
            (None, vec![plain(3)], no()),
        ]
    );
}
