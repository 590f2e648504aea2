use progression_website::activity::Activity;
use progression_website::change::{
    drop_activity, drop_concept_of, drop_id, drop_plain, drop_representation, exchange,
    other_thing, place_of, ChangeError,
};
use progression_website::concept::Concept;
use progression_website::data::{Change, Course, Data};
use progression_website::ids::{
    ActivityID, AnyID, ConceptID, ConceptRepresentationID, CourseID, ParseError,
    RepresentationID,
};
use progression_website::markdown::Markdown;
use progression_website::representation::{Icon, Representation};
use std::collections::BTreeMap;

fn plain(c: usize) -> ConceptRepresentationID {
    ConceptRepresentationID { concept: ConceptID(c), representation: None }
}

fn shown(c: usize, r: usize) -> ConceptRepresentationID {
    ConceptRepresentationID { concept: ConceptID(c), representation: Some(RepresentationID(r)) }
}

fn concept(id: usize, name: &str, prereqs: &[usize]) -> Concept {
    Concept {
        id: ConceptID(id),
        name: name.to_string(),
        prereq_concepts: prereqs.iter().map(|p| ConceptID(*p)).collect(),
        representations: BTreeMap::new(),
        figure: None,
        long_description: String::new(),
    }
}

fn activity(id: usize, name: &str, asks: &[usize], teaches: &[usize], uses: &[usize]) -> Activity {
    Activity {
        id: ActivityID(id),
        name: name.to_string(),
        prereq_concepts: asks.iter().map(|c| plain(*c)).collect(),
        new_concepts: teaches.iter().map(|c| plain(*c)).collect(),
        representations: uses.iter().map(|r| RepresentationID(*r)).collect(),
        long_description: Markdown::new(""),
        figure: None,
        external_url: None,
    }
}

fn course(id: usize, number: &str, name: &str, activities: &[usize]) -> Course {
    Course {
        id: CourseID(id),
        number: number.to_string(),
        name: name.to_string(),
        activities: activities.iter().map(|a| ActivityID(*a)).collect(),
    }
}

fn sample() -> Data {
    let mut energy = concept(0, "Energy", &[]);
    energy.add_representation(RepresentationID(0));
    Data {
        concepts: vec![
            energy,
            concept(1, "Entropy", &[0]),
            concept(2, "Heat", &[0, 1]),
            concept(3, "Orphan", &[]),
        ],
        activities: vec![
            activity(0, "Ice lab", &[0], &[1], &[0]),
            activity(1, "Heat lab", &[1], &[2], &[]),
            activity(2, "Extra", &[0], &[], &[]),
        ],
        representations: vec![
            Representation {
                id: RepresentationID(0),
                name: "PV Diagram".to_string(),
                description: Markdown::new("pressure against volume"),
                icon: Icon::Html("pv".to_string()),
            },
            Representation {
                id: RepresentationID(1),
                name: "Unused".to_string(),
                description: Markdown::new(""),
                icon: Icon::Fig("figs/u.png".to_string()),
            },
        ],
        courses: vec![
            course(0, "PH 423", "Energy and Entropy", &[0]),
            course(1, "PH 422", "Static Fields", &[1, 2]),
        ],
    }
}

fn change(id: &str, field: &str, content: &str, html: &str) -> Change {
    Change {
        id: id.to_string(),
        field: field.to_string(),
        content: content.to_string(),
        html: html.to_string(),
    }
}

/// Makes the change with the Markdown that its HTML converts to, where it
/// asks for that.
fn made(d: &mut Data, c: &Change) -> Result<(), ChangeError> {
    let markdown = if d.wants_markdown(c) { html2md::parse_html(&c.html) } else { String::new() };
    d.change(c, &markdown)
}

fn same(a: &Data, b: &Data) -> bool {
    a.concepts == b.concepts
        && a.activities == b.activities
        && a.representations == b.representations
        && a.courses == b.courses
}

fn refused(c: Change, why: ChangeError) {
    let mut d = sample();
    assert_eq!(made(&mut d, &c), Err(why));
    assert!(same(&d, &sample()));
}

#[test]
fn a_change_to_no_thing_is_refused() {
    refused(change("x1", "name", "n", ""), ChangeError::Parse(ParseError::UnknownKind));
    refused(change("", "name", "n", ""), ChangeError::Parse(ParseError::UnknownKind));
    refused(change("c", "name", "n", ""), ChangeError::Parse(ParseError::NotANumber));
    refused(change("c1-x", "name", "n", ""), ChangeError::Parse(ParseError::NotANumber));
    refused(change("c4", "name", "n", ""), ChangeError::Missing);
    refused(change("a3", "name", "n", ""), ChangeError::Missing);
    refused(change("r2", "name", "n", ""), ChangeError::Missing);
    refused(change("C2", "activity", "n", ""), ChangeError::Missing);
    refused(change("c1-r0", "name", "n", ""), ChangeError::Missing);
    refused(change("c9-r0", "name", "n", ""), ChangeError::Missing);
}

#[test]
fn a_change_to_no_field_is_refused() {
    for id in ["c0", "a0", "r0", "C0", "c0-r0"] {
        refused(change(id, "colour", "n", ""), ChangeError::UnknownField);
    }
    refused(change("c0", "Add", "c1", "taught by"), ChangeError::UnknownField);
    refused(change("c0", "Remove", "c1", "uses"), ChangeError::UnknownField);
    refused(change("a0", "Add", "c1", "teaches"), ChangeError::UnknownField);
    refused(change("a0", "Remove", "c1", "teaches"), ChangeError::UnknownField);
    refused(change("r0", "Add", "c1", "exists"), ChangeError::UnknownField);
    refused(change("r0", "Remove", "c1", "uses"), ChangeError::UnknownField);
    refused(change("C0", "Remove", "a0", "uses"), ChangeError::UnknownField);
}

#[test]
fn a_relationship_takes_things_of_its_kind() {
    refused(change("c0", "Add", "a1", "prereq"), ChangeError::WrongKind);
    refused(change("c0", "Add", "r0", "needed for"), ChangeError::WrongKind);
    refused(change("c0", "Remove", "c1", "taught by"), ChangeError::WrongKind);
    refused(change("c0", "Remove", "c0", "with"), ChangeError::WrongKind);
    refused(change("a0", "Add", "a1", "new"), ChangeError::WrongKind);
    refused(change("a0", "Remove", "c1", "uses"), ChangeError::WrongKind);
    refused(change("r0", "Add", "a1", "used by"), ChangeError::WrongKind);
    refused(change("r0", "Remove", "C1", "used by"), ChangeError::WrongKind);
    refused(change("C1", "up", "c1", ""), ChangeError::WrongKind);
    refused(change("C1", "Remove", "c1", "teaches"), ChangeError::WrongKind);
    refused(change("c0", "Add", "zz", "prereq"), ChangeError::Parse(ParseError::UnknownKind));
    refused(change("C1", "down", "a", ""), ChangeError::Parse(ParseError::NotANumber));
}

#[test]
fn a_concept_is_renamed_and_described() {
    let mut d = sample();
    assert_eq!(made(&mut d, &change("c1", "name", "  Disorder \n", "")), Ok(()));
    assert_eq!(d.concepts[1].name, "Disorder");
    assert_eq!(made(&mut d, &change("c1", "long_description", "", "<i>how</i> many ways")), Ok(()));
    assert_eq!(d.concepts[1].long_description, "*how* many ways");
    let mut want = sample();
    want.concepts[1].name = "Disorder".to_string();
    want.concepts[1].long_description = "*how* many ways".to_string();
    assert!(same(&d, &want));
}

#[test]
fn a_concept_gets_relationships_by_name() {
    let mut d = sample();
    assert_eq!(made(&mut d, &change("c1", "prereq", " Orphan ", "")), Ok(()));
    assert_eq!(d.concepts[1].prereq_concepts, vec![ConceptID(0), ConceptID(3)]);
    assert_eq!(made(&mut d, &change("c1", "prereq", "Work", "")), Ok(()));
    assert_eq!(d.concepts.len(), 5);
    assert_eq!(d.concepts[4].name, "Work");
    assert_eq!(d.concepts[1].prereq_concepts, vec![ConceptID(0), ConceptID(3), ConceptID(4)]);
    // a number names the concept of that number
    assert_eq!(made(&mut d, &change("c1", "needed for", "2", "")), Ok(()));
    assert_eq!(d.concepts[2].prereq_concepts, vec![ConceptID(0), ConceptID(1), ConceptID(1)]);
    assert_eq!(made(&mut d, &change("c3", "taught by", "Extra", "")), Ok(()));
    assert_eq!(d.activities[2].new_concepts, vec![plain(3)]);
    assert_eq!(made(&mut d, &change("c3", "taught by", "Another", "")), Ok(()));
    assert_eq!(d.activities.len(), 4);
    assert_eq!(d.activities[3].name, "Another");
    assert_eq!(d.activities[3].new_concepts, vec![plain(3)]);
    assert_eq!(made(&mut d, &change("c3", "representation", "Unused", "")), Ok(()));
    assert_eq!(d.concepts[3].representations.keys().cloned().collect::<Vec<usize>>(), vec![1]);
    assert_eq!(made(&mut d, &change("c3", "representation", "Graph", "")), Ok(()));
    assert_eq!(d.representations.len(), 3);
    assert_eq!(d.representations[2].name, "Graph");
    assert_eq!(d.representations[2].icon, Icon::Html("Graph".to_string()));
    assert_eq!(d.concepts[3].representations.keys().cloned().collect::<Vec<usize>>(), vec![1, 2]);
    assert!(d.is_linked());
}

#[test]
fn a_concept_gets_and_loses_relationships_by_identifier() {
    let mut d = sample();
    assert_eq!(made(&mut d, &change("c3", "Add", "c0", "prereq")), Ok(()));
    assert_eq!(d.concepts[3].prereq_concepts, vec![ConceptID(0)]);
    assert_eq!(made(&mut d, &change("c3", "Add", "c2", "needed for")), Ok(()));
    assert_eq!(d.concepts[2].prereq_concepts, vec![ConceptID(0), ConceptID(1), ConceptID(3)]);
    assert_eq!(made(&mut d, &change("c3", "Add", "c7", "needed for")), Err(ChangeError::Missing));
    assert_eq!(made(&mut d, &change("c0", "Remove", "c2", "needed for")), Ok(()));
    assert_eq!(d.concepts[2].prereq_concepts, vec![ConceptID(1), ConceptID(3)]);
    assert_eq!(made(&mut d, &change("c2", "Remove", "c1", "prereq")), Ok(()));
    assert_eq!(d.concepts[2].prereq_concepts, vec![ConceptID(3)]);
    d.activities[0].new_concepts = vec![plain(1), plain(0), shown(0, 0), plain(2)];
    assert_eq!(made(&mut d, &change("c0", "Remove", "a0", "taught by")), Ok(()));
    assert_eq!(d.activities[0].new_concepts, vec![plain(1), plain(2)]);
    assert_eq!(made(&mut d, &change("c0", "Remove", "a5", "taught by")), Err(ChangeError::Missing));
    assert_eq!(made(&mut d, &change("c0", "Remove", "c0-r0", "with")), Ok(()));
    assert!(d.concepts[0].representations.is_empty());
}

#[test]
fn a_concept_in_a_representation_has_a_name_of_its_own() {
    let mut d = sample();
    assert_eq!(made(&mut d, &change("c0-r0", "name", " Energy in the plane ", "")), Ok(()));
    assert_eq!(d.concepts[0].representations[&0].name, "Energy in the plane");
    assert_eq!(made(&mut d, &change("c0-r0", "long_description", "", "<b>area</b>")), Ok(()));
    assert_eq!(d.concepts[0].representations[&0].long_description, "**area**");
    assert_eq!(d.concepts[0].representations[&0].name, "Energy in the plane");
    assert_eq!(d.name_it(shown(0, 0)), "Energy in the plane");
}

#[test]
fn an_activity_is_changed() {
    let mut d = sample();
    assert_eq!(made(&mut d, &change("a2", "name", " Extra credit ", "")), Ok(()));
    assert_eq!(d.activities[2].name, "Extra credit");
    assert_eq!(made(&mut d, &change("a2", "long_description", "", "<p>do <b>it</b></p>")), Ok(()));
    assert_eq!(d.activities[2].long_description, Markdown::new("do **it**"));
    assert_eq!(made(&mut d, &change("a2", "external_url", " http://example.org/x ", "")), Ok(()));
    assert_eq!(d.activities[2].external_url, Some("http://example.org/x".to_string()));
    assert_eq!(made(&mut d, &change("a2", "prereq", "Energy using pv diagram", "")), Ok(()));
    assert_eq!(d.activities[2].prereq_concepts, vec![plain(0), shown(0, 0)]);
    assert_eq!(made(&mut d, &change("a2", "taught", "Heat", "")), Ok(()));
    assert_eq!(made(&mut d, &change("a2", "taught", "Work", "")), Ok(()));
    assert_eq!(d.concepts[4].name, "Work");
    assert_eq!(d.activities[2].new_concepts, vec![plain(2), plain(4)]);
    assert_eq!(made(&mut d, &change("a2", "representation", "Unused", "")), Ok(()));
    assert_eq!(made(&mut d, &change("a2", "representation", "Unused", "")), Ok(()));
    assert_eq!(d.activities[2].representations, vec![RepresentationID(1), RepresentationID(1)]);
    assert!(d.is_linked());
}

#[test]
fn an_activity_gets_and_loses_relationships_by_identifier() {
    let mut d = sample();
    assert_eq!(made(&mut d, &change("a2", "Add", "c3", "new")), Ok(()));
    assert_eq!(made(&mut d, &change("a2", "Add", "c0-r0", "new")), Ok(()));
    assert_eq!(made(&mut d, &change("a2", "Add", "c0", "new")), Ok(()));
    assert_eq!(d.activities[2].new_concepts, vec![plain(3), shown(0, 0), plain(0)]);
    // a concept as such takes its representations with it; one in a representation only itself
    assert_eq!(made(&mut d, &change("a2", "Remove", "c0", "new")), Ok(()));
    assert_eq!(d.activities[2].new_concepts, vec![plain(3)]);
    assert_eq!(made(&mut d, &change("a2", "Add", "c0-r0", "prereq")), Ok(()));
    assert_eq!(made(&mut d, &change("a2", "Add", "c1", "prereq")), Ok(()));
    assert_eq!(d.activities[2].prereq_concepts, vec![plain(0), shown(0, 0), plain(1)]);
    assert_eq!(made(&mut d, &change("a2", "Remove", "c0", "prereq")), Ok(()));
    assert_eq!(d.activities[2].prereq_concepts, vec![shown(0, 0), plain(1)]);
    assert_eq!(made(&mut d, &change("a2", "Remove", "c0-r0", "prereq")), Ok(()));
    assert_eq!(d.activities[2].prereq_concepts, vec![plain(1)]);
    assert_eq!(made(&mut d, &change("a2", "Add", "r1", "uses")), Ok(()));
    assert_eq!(made(&mut d, &change("a2", "Add", "r0", "uses")), Ok(()));
    assert_eq!(d.activities[2].representations, vec![RepresentationID(1), RepresentationID(0)]);
    assert_eq!(made(&mut d, &change("a2", "Remove", "r1", "uses")), Ok(()));
    assert_eq!(d.activities[2].representations, vec![RepresentationID(0)]);
}

#[test]
fn a_representation_is_changed() {
    let mut d = sample();
    assert_eq!(made(&mut d, &change("r1", "name", " Table ", "")), Ok(()));
    assert_eq!(d.representations[1].name, "Table");
    assert_eq!(made(&mut d, &change("r1", "icon", "", " <img src=\"t.png\"/> ")), Ok(()));
    assert_eq!(d.representations[1].icon, Icon::Html("<img src=\"t.png\"/>".to_string()));
    assert_eq!(made(&mut d, &change("r1", "description", "", "<b>rows</b>")), Ok(()));
    assert_eq!(d.representations[1].description, Markdown::new("**rows**"));
    assert_eq!(made(&mut d, &change("r1", "Add", "c3", "used by")), Ok(()));
    assert_eq!(d.concepts[3].representations.keys().cloned().collect::<Vec<usize>>(), vec![1]);
    assert_eq!(made(&mut d, &change("r1", "Remove", "c3", "used by")), Ok(()));
    assert!(d.concepts[3].representations.is_empty());
    assert_eq!(made(&mut d, &change("r0", "Remove", "a0", "used by")), Ok(()));
    assert!(d.activities[0].representations.is_empty());
}

#[test]
fn a_representation_is_removed() {
    // the last one goes, with the nameless ones before it
    let mut d = sample();
    d.representations.push(Representation {
        id: RepresentationID(2),
        name: "Last".to_string(),
        description: Markdown::new(""),
        icon: Icon::Html(String::new()),
    });
    assert_eq!(made(&mut d, &change("r1", "Remove", "", "exists")), Ok(()));
    assert_eq!(d.representations.len(), 3);
    assert_eq!(d.representations[1].name, "");
    assert_eq!(d.representations[1].icon, Icon::Html(String::new()));
    assert_eq!(d.representations[1].description, Markdown::new(""));
    assert_eq!(d.representations[1].id, RepresentationID(1));
    assert_eq!(made(&mut d, &change("r2", "Remove", "", "exists")), Ok(()));
    assert_eq!(d.representations.len(), 1);
    assert_eq!(d.representations[0].name, "PV Diagram");
    // a new one takes the first place without a name
    let mut d = sample();
    d.remove_representation(RepresentationID(0));
    assert_eq!(d.representations[0].name, "");
    assert_eq!(d.representation_by_name_or_create("Graph"), RepresentationID(0));
    assert_eq!(d.representations[0].name, "Graph");
    assert_eq!(d.representations.len(), 2);
    // the only one
    let mut d = Data::new();
    d.representation_by_name_or_create("One");
    d.remove_representation(RepresentationID(0));
    assert!(d.representations.is_empty());
}

#[test]
fn a_course_is_changed() {
    let mut d = sample();
    assert_eq!(made(&mut d, &change("C0", "activity", "Extra", "")), Ok(()));
    assert_eq!(d.courses[0].activities, vec![ActivityID(0), ActivityID(2)]);
    assert_eq!(made(&mut d, &change("C0", "activity", "Extra", "")), Ok(()));
    assert_eq!(d.courses[0].activities, vec![ActivityID(0), ActivityID(2)]);
    assert_eq!(made(&mut d, &change("C0", "activity", "Quiz", "")), Ok(()));
    assert_eq!(d.activities[3].name, "Quiz");
    assert_eq!(d.courses[0].activities, vec![ActivityID(0), ActivityID(2), ActivityID(3)]);
    assert_eq!(made(&mut d, &change("C0", "up", "a3", "")), Ok(()));
    assert_eq!(d.courses[0].activities, vec![ActivityID(0), ActivityID(3), ActivityID(2)]);
    assert_eq!(made(&mut d, &change("C0", "down", "a0", "")), Ok(()));
    assert_eq!(d.courses[0].activities, vec![ActivityID(3), ActivityID(0), ActivityID(2)]);
    // nothing stands above the first or below the last
    assert_eq!(made(&mut d, &change("C0", "up", "a3", "")), Err(ChangeError::Missing));
    assert_eq!(made(&mut d, &change("C0", "down", "a2", "")), Err(ChangeError::Missing));
    assert_eq!(made(&mut d, &change("C0", "up", "a1", "")), Err(ChangeError::Missing));
    assert_eq!(d.courses[0].activities, vec![ActivityID(3), ActivityID(0), ActivityID(2)]);
    assert_eq!(made(&mut d, &change("C0", "Remove", "a0", "teaches")), Ok(()));
    assert_eq!(d.courses[0].activities, vec![ActivityID(3), ActivityID(2)]);
    assert_eq!(d.courses[1], sample().courses[1]);
}

#[test]
fn an_uploaded_figure_is_noted() {
    let mut d = sample();
    assert_eq!(d.uploaded_figure(AnyID::Concept(ConceptID(1)), "s.png"), Ok(()));
    assert_eq!(d.concepts[1].figure, Some("s.png".to_string()));
    assert_eq!(d.uploaded_figure(AnyID::Activity(ActivityID(1)), "lab.jpg"), Ok(()));
    assert_eq!(d.activities[1].figure, Some("lab.jpg".to_string()));
    assert_eq!(d.uploaded_figure(AnyID::Representation(RepresentationID(0)), "pv.svg"), Ok(()));
    assert_eq!(d.representations[0].icon, Icon::Fig("figs/pv.svg".to_string()));
    assert_eq!(d.uploaded_figure(AnyID::ConceptRepresentation(shown(0, 0)), "e.png"), Ok(()));
    assert_eq!(d.concepts[0].representations[&0].figure, Some("e.png".to_string()));
    // a concept that is not in the representation is left as it is
    assert_eq!(d.uploaded_figure(AnyID::ConceptRepresentation(shown(1, 0)), "e.png"), Ok(()));
    assert!(d.concepts[1].representations.is_empty());
    assert_eq!(d.uploaded_figure(AnyID::Course(CourseID(0)), "c.png"), Err(ChangeError::WrongKind));
    assert_eq!(d.uploaded_figure(AnyID::Concept(ConceptID(4)), "c.png"), Err(ChangeError::Missing));
    assert_eq!(d.uploaded_figure(AnyID::Activity(ActivityID(3)), "c.png"), Err(ChangeError::Missing));
    assert_eq!(
        d.uploaded_figure(AnyID::Representation(RepresentationID(2)), "c.png"),
        Err(ChangeError::Missing)
    );
    assert_eq!(
        d.uploaded_figure(AnyID::ConceptRepresentation(plain(0)), "c.png"),
        Err(ChangeError::Missing)
    );
}

#[test]
fn lists_lose_what_is_dropped() {
    let mut v = vec![ActivityID(1), ActivityID(2), ActivityID(1), ActivityID(3)];
    assert_eq!(place_of(&v, ActivityID(1)), Some(0));
    assert_eq!(place_of(&v, ActivityID(3)), Some(3));
    assert_eq!(place_of(&v, ActivityID(4)), None);
    exchange(&mut v, 1, 3);
    assert_eq!(v, vec![ActivityID(1), ActivityID(3), ActivityID(1), ActivityID(2)]);
    drop_activity(&mut v, ActivityID(1));
    assert_eq!(v, vec![ActivityID(3), ActivityID(2)]);
    let mut v = vec![ConceptID(1), ConceptID(2), ConceptID(1)];
    drop_plain(&mut v, ConceptID(1));
    assert_eq!(v, vec![ConceptID(2)]);
    let mut v = vec![RepresentationID(1), RepresentationID(2)];
    drop_representation(&mut v, RepresentationID(3));
    assert_eq!(v, vec![RepresentationID(1), RepresentationID(2)]);
    let mut v = vec![plain(1), shown(1, 0), plain(2), shown(1, 1)];
    drop_id(&mut v, shown(1, 0));
    assert_eq!(v, vec![plain(1), plain(2), shown(1, 1)]);
    drop_concept_of(&mut v, ConceptID(1));
    assert_eq!(v, vec![plain(2)]);
    assert_eq!(other_thing("a7"), Ok(AnyID::Activity(ActivityID(7))));
    assert_eq!(other_thing("7"), Err(ChangeError::Parse(ParseError::UnknownKind)));
}

#[test]
fn the_markdown_is_read_where_the_change_asks_for_it() {
    let d = sample();
    assert!(d.wants_markdown(&change("c0", "long_description", "", "")));
    assert!(d.wants_markdown(&change("c0-r0", "long_description", "", "")));
    assert!(d.wants_markdown(&change("a2", "long_description", "", "")));
    assert!(d.wants_markdown(&change("r1", "description", "", "")));
    assert!(!d.wants_markdown(&change("c0", "description", "", "")));
    assert!(!d.wants_markdown(&change("c0", "name", "", "")));
    assert!(!d.wants_markdown(&change("r1", "long_description", "", "")));
    assert!(!d.wants_markdown(&change("C0", "long_description", "", "")));
    assert!(!d.wants_markdown(&change("c4", "long_description", "", "")));
    assert!(!d.wants_markdown(&change("c1-r0", "long_description", "", "")));
    assert!(!d.wants_markdown(&change("x", "long_description", "", "")));
    // the Markdown is tidied before it is kept
    let mut d = sample();
    assert_eq!(d.change(&change("c1", "long_description", "", "ignored"), r" a \[ b "), Ok(()));
    assert_eq!(d.concepts[1].long_description, r"a \\[ b");
    // and it is not read where the change does not ask for it
    let mut d = sample();
    assert_eq!(d.change(&change("c1", "name", "Disorder", ""), "not read"), Ok(()));
    let mut want = sample();
    want.concepts[1].name = "Disorder".to_string();
    assert!(same(&d, &want));
}
