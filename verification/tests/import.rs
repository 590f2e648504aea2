use progression_website::concept::ConceptRepresentation;
use progression_website::data::Data;
use progression_website::ids::{
    ActivityID, ConceptID, ConceptRepresentationID, CourseID, RepresentationID,
};
use progression_website::address::{absolute_url, base_url, set_base_url};
use progression_website::import::{
    fix_representation_name, nonempty_string, parse_list, trimmed_part,
    without_those, Row,
};
use progression_website::markdown::Markdown;
use progression_website::representation::Icon;

fn plain(c: usize) -> ConceptRepresentationID {
    ConceptRepresentationID { concept: ConceptID(c), representation: None }
}

fn row(thingtype: &str, name: &str, prereqs: &str, teaches: &str, reps: &str, course: &str) -> Row {
    Row {
        thingtype: thingtype.to_string(),
        name: name.to_string(),
        prereq_concepts: prereqs.to_string(),
        new_concepts: teaches.to_string(),
        representations: reps.to_string(),
        course_number: course.to_string(),
        figure: String::new(),
        long_description: String::new(),
        external_url: String::new(),
    }
}

#[test]
fn lists_are_read_between_square_brackets() {
    assert_eq!(parse_list("[a, b,c]"), vec!["a", "b", "c"]);
    assert_eq!(parse_list("[ one item ]"), vec!["one item"]);
    assert_eq!(parse_list("[]"), Vec::<String>::new());
    assert_eq!(parse_list(""), Vec::<String>::new());
    assert_eq!(parse_list("a, b"), Vec::<String>::new());
    assert_eq!(parse_list("[a, b"), Vec::<String>::new());
    assert_eq!(parse_list("a, b]"), Vec::<String>::new());
    assert_eq!(parse_list("["), Vec::<String>::new());
    assert_eq!(parse_list("]"), Vec::<String>::new());
    // an empty part is left out, a blank one is kept as an empty name
    assert_eq!(parse_list("[a,,b,]"), vec!["a", "b"]);
    assert_eq!(parse_list("[a, ,b]"), vec!["a", "", "b"]);
    assert_eq!(parse_list("[[x], y]"), vec!["[x]", "y"]);
}

#[test]
fn parts_are_trimmed() {
    let chars: Vec<char> = "ab,  cd ,e".chars().collect();
    assert_eq!(trimmed_part(&chars, 3, 8), "cd");
    assert_eq!(trimmed_part(&chars, 0, 2), "ab");
    assert_eq!(trimmed_part(&chars, 3, 3), "");
    assert_eq!(trimmed_part(&chars, 0, 10), "ab,  cd ,e");
}

#[test]
fn empty_texts_are_nothing() {
    assert_eq!(nonempty_string(""), None);
    assert_eq!(nonempty_string(" "), Some(" ".to_string()));
    assert_eq!(nonempty_string("fig.png"), Some("fig.png".to_string()));
}

#[test]
fn old_names_of_representations_are_replaced() {
    assert_eq!(fix_representation_name("partial f/partial x"), r"$\frac{\partial f}{\partial x}$");
    assert_eq!(
        fix_representation_name("partial f/partial x fixing y"),
        r"$\left(\frac{\partial f}{\partial x}\right)_y$"
    );
    assert_eq!(fix_representation_name("Del f"), r"$\vec\nabla f$");
    assert_eq!(fix_representation_name("Del dot f"), r"$\vec\nabla\cdot\vec f$");
    assert_eq!(fix_representation_name("df"), "$df$");
    assert_eq!(fix_representation_name("picture of PDM"), "PDM");
    assert_eq!(fix_representation_name("extable.jpg"), "Table");
    assert_eq!(fix_representation_name("Contour Maps"), "Contour Maps");
    assert_eq!(fix_representation_name("del f"), "del f");
    assert_eq!(fix_representation_name(""), "");
}

#[test]
fn addresses_are_put_below_the_base() {
    assert_eq!(absolute_url("http://x.org", "/concept/1"), "http://x.org/concept/1");
    assert_eq!(absolute_url("http://x.org", "concept/1"), "http://x.org/concept/1");
    assert_eq!(absolute_url("", ""), "/");
    assert_eq!(absolute_url("", "/"), "/");
    assert_eq!(absolute_url("b", ""), "b/");
}

#[test]
fn the_base_address_is_set_and_read() {
    let mut base = String::new();
    assert_eq!(base_url(&base), "");
    set_base_url(&mut base, "http://x.org/progression");
    assert_eq!(base_url(&base), "http://x.org/progression");
    set_base_url(&mut base, "");
    assert_eq!(base, "");
}

#[test]
fn identifiers_are_taken_out_of_a_list() {
    let ids = vec![plain(1), plain(2), plain(1), plain(3)];
    assert_eq!(without_those(&ids, &vec![plain(1), plain(3)]), vec![plain(2)]);
    assert_eq!(without_those(&ids, &vec![]), ids);
    assert_eq!(without_those(&vec![], &ids), vec![]);
}

#[test]
fn named_things_are_found_or_made() {
    let mut d = Data::new();
    let names = vec!["Energy".to_string(), " Heat".to_string(), "Energy".to_string(), "1".to_string()];
    assert_eq!(d.concepts_by_names(&names), vec![ConceptID(0), ConceptID(1), ConceptID(0), ConceptID(1)]);
    assert_eq!(d.concepts.len(), 2);
    assert_eq!(d.concepts[1].name, "Heat");
    let names = vec!["df".to_string(), "Graph".to_string(), "$df$".to_string()];
    assert_eq!(
        d.representations_by_names(&names),
        vec![RepresentationID(0), RepresentationID(1), RepresentationID(0)]
    );
    assert_eq!(d.representations[0].name, "$df$");
    assert_eq!(d.representations[0].icon, Icon::Html("$df$".to_string()));
    assert_eq!(d.representations[1].name, "Graph");
}

#[test]
fn a_row_makes_a_concept_that_its_course_anchors() {
    let mut d = Data::new();
    let mut r = row("Concept", " Entropy ", "[Energy, Heat]", "", "[Del f, Table]", "PH 423");
    r.figure = "entropy.png".to_string();
    r.long_description = "ways to arrange".to_string();
    d.import_row(&r);
    assert!(d.is_linked());
    let names: Vec<&str> = d.concepts.iter().map(|c| c.name.as_str()).collect();
    assert_eq!(names, vec!["Energy", "Heat", "Entropy"]);
    let c = &d.concepts[2];
    assert_eq!(c.id, ConceptID(2));
    assert_eq!(c.prereq_concepts, vec![ConceptID(0), ConceptID(1)]);
    assert_eq!(c.figure, Some("entropy.png".to_string()));
    assert_eq!(c.long_description, "ways to arrange");
    let blank = ConceptRepresentation {
        name: String::new(),
        long_description: String::new(),
        figure: None,
    };
    assert_eq!(c.representations.len(), 2);
    assert_eq!(c.representations[&0], blank);
    assert_eq!(c.representations[&1], blank);
    let names: Vec<&str> = d.representations.iter().map(|r| r.name.as_str()).collect();
    assert_eq!(names, vec![r"$\vec\nabla f$", "Table"]);
    assert_eq!(d.courses.len(), 1);
    assert_eq!(d.courses[0].id, CourseID(0));
    assert_eq!(d.courses[0].number, "PH 423");
    assert_eq!(d.courses[0].name, "Energy and Entropy");
    assert_eq!(d.courses[0].activities, vec![ActivityID(0)]);
    assert_eq!(d.activities.len(), 1);
    assert_eq!(d.activities[0].name, "lower anchor PH 423");
    assert_eq!(d.activities[0].new_concepts, vec![plain(2)]);
}

#[test]
fn a_row_makes_an_activity_that_takes_over_from_the_anchor() {
    let mut d = Data::new();
    d.import_row(&row("concept", "Energy", "", "", "", "PH 423"));
    d.import_row(&row("concept", "Heat", "[Energy]", "", "", "PH 423"));
    assert_eq!(d.activities[0].new_concepts, vec![plain(0), plain(1)]);
    let mut r = row("Activity", " Ice lab", "[Energy]", "[Heat, Work]", "[Graph]", "PH 423");
    r.external_url = "http://example.org/ice".to_string();
    r.long_description = "melt *ice*".to_string();
    d.import_row(&r);
    assert!(d.is_linked());
    assert_eq!(d.activities.len(), 2);
    assert_eq!(d.activities[0].name, "lower anchor PH 423");
    assert_eq!(d.activities[0].new_concepts, vec![plain(0)]);
    let a = &d.activities[1];
    assert_eq!(a.id, ActivityID(1));
    assert_eq!(a.name, "Ice lab");
    assert_eq!(a.prereq_concepts, vec![plain(0)]);
    assert_eq!(a.new_concepts, vec![plain(1), plain(2)]);
    assert_eq!(a.representations, vec![RepresentationID(0)]);
    assert_eq!(a.figure, None);
    assert_eq!(a.external_url, Some("http://example.org/ice".to_string()));
    assert_eq!(a.long_description, Markdown::new("melt *ice*"));
    assert_eq!(d.concepts[2].name, "Work");
    assert_eq!(d.courses.len(), 1);
    assert_eq!(d.courses[0].activities, vec![ActivityID(0)]);
    // the same row again changes nothing
    d.import_row(&r);
    assert_eq!(d.activities.len(), 2);
    assert_eq!(d.activities[1].new_concepts, vec![plain(1), plain(2)]);
    assert_eq!(d.concepts.len(), 3);
}

#[test]
fn a_row_of_another_kind_only_makes_what_it_names() {
    let mut d = Data::new();
    d.import_row(&row("Neither", "x", "[Energy]", "[Heat]", "[Graph]", "MTH 254"));
    let names: Vec<&str> = d.concepts.iter().map(|c| c.name.as_str()).collect();
    assert_eq!(names, vec!["Energy", "Heat"]);
    assert_eq!(d.representations.len(), 1);
    assert_eq!(d.courses[0].name, "Multivariable Calculus");
    assert!(d.courses[0].activities.is_empty());
    assert!(d.activities.is_empty());
    // a concept without a name is passed over, and so is a course without a number
    d.import_row(&row("Concept", "  ", "", "", "", ""));
    assert_eq!(d.concepts.len(), 2);
    assert_eq!(d.courses.len(), 1);
    d.import_row(&row("Concept", "Work", "", "", "", ""));
    assert_eq!(d.concepts.len(), 3);
    assert!(d.activities.is_empty());
}

#[test]
fn an_activity_without_a_course_gets_the_anchor_of_the_nameless_course() {
    let mut d = Data::new();
    d.import_row(&row("activity", "Solo", "", "", "", ""));
    assert_eq!(d.courses.len(), 1);
    assert_eq!(d.courses[0].number, "");
    assert_eq!(d.activities.len(), 2);
    assert_eq!(d.activities[0].name, "lower anchor ");
    assert_eq!(d.activities[1].name, "Solo");
    assert_eq!(d.courses[0].activities, vec![ActivityID(0)]);
}

#[test]
fn a_concept_is_taken_over_with_what_it_asks_for() {
    let mut d = Data::new();
    let energy = d.concept_by_name_or_create("Energy");
    let graph = d.representation_by_name_or_create("Graph");
    let table = d.representation_by_name_or_create("Table");
    d.import_concept(&row("Concept", " Heat ", "", "", "", ""), vec![energy], vec![table, graph]);
    assert_eq!(d.concepts.len(), 2);
    assert_eq!(d.concepts[1].name, "Heat");
    assert_eq!(d.concepts[1].prereq_concepts, vec![energy]);
    assert_eq!(d.concepts[1].representations.keys().cloned().collect::<Vec<usize>>(), vec![0, 1]);
    assert!(d.activities.is_empty());
    assert!(d.courses.is_empty());
    // what the store held of the concept is replaced
    d.import_concept(&row("Concept", "Heat", "", "", "", ""), vec![], vec![]);
    assert_eq!(d.concepts.len(), 2);
    assert!(d.concepts[1].prereq_concepts.is_empty());
    assert!(d.concepts[1].representations.is_empty());
    d.import_concept(&row("Concept", "", "", "", "", "PH 423"), vec![energy], vec![]);
    assert_eq!(d.concepts.len(), 2);
    assert!(d.courses.is_empty());
}

#[test]
fn an_activity_is_taken_over_with_what_it_teaches() {
    let mut d = Data::new();
    let energy = d.concept_by_name_or_create("Energy");
    let heat = d.concept_by_name_or_create("Heat");
    let graph = d.representation_by_name_or_create("Graph");
    let anchor = d.lower_anchor("PH 423");
    d.get_activity(anchor).new_concepts = vec![plain(0), plain(1)];
    d.import_activity(&row("Activity", "Lab", "", "", "", "PH 423"), vec![energy], vec![heat], vec![graph]);
    assert_eq!(d.activities.len(), 2);
    assert_eq!(d.activities[0].new_concepts, vec![plain(0)]);
    assert_eq!(d.activities[1].name, "Lab");
    assert_eq!(d.activities[1].prereq_concepts, vec![plain(0)]);
    assert_eq!(d.activities[1].new_concepts, vec![plain(1)]);
    assert_eq!(d.activities[1].representations, vec![graph]);
    assert_eq!(d.courses[0].activities, vec![ActivityID(0)]);
}
