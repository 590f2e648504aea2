use progression_website::types::{
    Activity, ActivityID, Concept, ConceptID, CourseID, Data, RepresentationID,
};

#[test]
fn the_plain_store_makes_what_is_missing() {
    let mut d = Data::new();
    assert!(d.concepts.is_empty() && d.activities.is_empty() && d.representations.is_empty());
    assert_eq!(d.concept_by_name("Energy"), ConceptID(0));
    assert_eq!(d.concept_by_name("Heat"), ConceptID(1));
    assert_eq!(d.concept_by_name("Energy"), ConceptID(0));
    assert_eq!(d.concepts.len(), 2);
    assert_eq!(
        d.concepts[1],
        Concept {
            id: ConceptID(1),
            name: "Heat".to_string(),
            prereq_concepts: vec![],
            representations: vec![],
            courses: vec![],
            figure: None,
            long_description: String::new(),
            external_url: None,
            status: None,
            notes: None,
        }
    );
    assert_eq!(d.activity_by_name("Lab"), ActivityID(0));
    assert_eq!(d.activity_by_name("Lab"), ActivityID(0));
    assert_eq!(d.activity_by_name("lab"), ActivityID(1));
    assert_eq!(d.activities[1].name, "lab");
    assert_eq!(d.activities[1].id, ActivityID(1));
    assert_eq!(d.representation_by_name("Graph"), RepresentationID(0));
    assert_eq!(d.representation_by_name("Table"), RepresentationID(1));
    assert_eq!(d.representation_by_name("Graph"), RepresentationID(0));
    assert_eq!(d.representations[1].name, "Table");
}

#[test]
fn the_plain_store_replaces_things() {
    let mut d = Data::new();
    d.concept_by_name("Energy");
    d.concept_by_name("Heat");
    d.activity_by_name("Lab");
    let c = Concept {
        id: ConceptID(1),
        name: "Warmth".to_string(),
        prereq_concepts: vec![ConceptID(0)],
        representations: vec![RepresentationID(3)],
        courses: vec![CourseID(2)],
        figure: Some("w.png".to_string()),
        long_description: "how hot".to_string(),
        external_url: None,
        status: Some("draft".to_string()),
        notes: None,
    };
    d.set_concept(ConceptID(1), c.clone());
    assert_eq!(d.concepts[1], c);
    assert_eq!(d.concepts[0].name, "Energy");
    let a = Activity {
        id: ActivityID(0),
        name: "Ice lab".to_string(),
        prereq_concepts: vec![ConceptID(0)],
        new_concepts: vec![ConceptID(1)],
        representations: vec![],
        courses: vec![],
        figure: None,
        long_description: String::new(),
        external_url: Some("http://example.org".to_string()),
        status: None,
        notes: Some("bring ice".to_string()),
    };
    d.set_activity(ActivityID(0), a.clone());
    assert_eq!(d.activities, vec![a]);
}
