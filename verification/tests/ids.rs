use progression_website::ids::{
    ActivityID, AnyID, ConceptID, ConceptRepresentationID, CourseID, NodeID, ParseError,
    RepresentationID,
};
use std::str::FromStr;

#[test]
fn test_concept_representation_id() {
    let oneone: ConceptRepresentationID = (ConceptID(1), RepresentationID(2)).into();
    assert_eq!("c1-r2", &oneone.html());
    assert_eq!(Ok(oneone), ConceptRepresentationID::from_str(&oneone.html()));

    let id: ConceptRepresentationID = (ConceptID(27), RepresentationID(6)).into();
    assert_eq!("c27-r6", &id.html());
    assert_eq!(Ok(id), ConceptRepresentationID::from_str(&id.html()));

    assert!(AnyID::parse("c27-r6").is_ok());
}

#[test]
fn identifiers_are_written_with_their_letter() {
    assert_eq!(ConceptID(0).html(), "c0");
    assert_eq!(ActivityID(12).html(), "a12");
    assert_eq!(RepresentationID(305).html(), "r305");
    assert_eq!(CourseID(7).html(), "C7");
    let plain: ConceptRepresentationID = ConceptID(4).into();
    assert_eq!(plain.html(), "c4");
    assert_eq!(plain.representation, None);
}

#[test]
fn identifiers_have_addresses() {
    assert_eq!(ConceptID(3).url(), "/concept/3");
    assert_eq!(ActivityID(10).url(), "/activity/10");
    assert_eq!(RepresentationID(0).url(), "/representation/0");
    assert_eq!(CourseID(99).url(), "/course/99");
    let id: ConceptRepresentationID = (ConceptID(8), RepresentationID(2)).into();
    assert_eq!(id.url(), "/concept/8");
}

#[test]
fn numbers_are_read_as_identifiers() {
    assert_eq!(ConceptID::from_str("17"), Ok(ConceptID(17)));
    assert_eq!(ActivityID::from_str("+4"), Ok(ActivityID(4)));
    assert_eq!(RepresentationID::from_str("007"), Ok(RepresentationID(7)));
    assert_eq!(CourseID::parse("0"), Ok(CourseID(0)));
    assert_eq!(ConceptID::from_str(""), Err(ParseError::NotANumber));
    assert_eq!(ConceptID::from_str("-1"), Err(ParseError::NotANumber));
    assert_eq!(ConceptID::from_str(" 1"), Err(ParseError::NotANumber));
    assert_eq!(ConceptID::from_str("c1"), Err(ParseError::NotANumber));
}

#[test]
fn manifestations_are_read_in_both_forms() {
    let id = ConceptRepresentationID { concept: ConceptID(3), representation: Some(RepresentationID(14)) };
    assert_eq!(ConceptRepresentationID::str2manifestation("c3-r14"), Some(id));
    assert_eq!(ConceptRepresentationID::str2manifestation("3/14"), Some(id));
    // what follows a further separator is not read
    assert_eq!(ConceptRepresentationID::str2manifestation("c3-r14-x"), Some(id));
    assert_eq!(ConceptRepresentationID::str2manifestation("3/14/5"), Some(id));
    assert_eq!(ConceptRepresentationID::str2manifestation(""), None);
    assert_eq!(ConceptRepresentationID::str2manifestation("c3"), None);
    assert_eq!(ConceptRepresentationID::str2manifestation("c3-"), None);
    assert_eq!(ConceptRepresentationID::str2manifestation("c3-x14"), None);
    assert_eq!(ConceptRepresentationID::str2manifestation("c3-r"), None);
    assert_eq!(ConceptRepresentationID::str2manifestation("cx-r1"), None);
    assert_eq!(ConceptRepresentationID::str2manifestation("3"), None);
    assert_eq!(ConceptRepresentationID::str2manifestation("3/"), None);
    assert_eq!(ConceptRepresentationID::str2manifestation("\u{e9}1/2"), None);
}

#[test]
fn a_number_alone_is_a_concept_as_such() {
    assert_eq!(
        ConceptRepresentationID::from_str("12"),
        Ok(ConceptRepresentationID { concept: ConceptID(12), representation: None })
    );
    assert_eq!(ConceptRepresentationID::from_str("c12"), Err(ParseError::NotANumber));
}

#[test]
fn any_id_goes_by_the_first_letter() {
    assert_eq!(AnyID::parse("c5"), Ok(AnyID::Concept(ConceptID(5))));
    assert_eq!(AnyID::parse("C5"), Ok(AnyID::Course(CourseID(5))));
    assert_eq!(AnyID::parse("a5"), Ok(AnyID::Activity(ActivityID(5))));
    assert_eq!(AnyID::parse("r5"), Ok(AnyID::Representation(RepresentationID(5))));
    assert_eq!(
        AnyID::parse("c5-r6"),
        Ok(AnyID::ConceptRepresentation(ConceptRepresentationID {
            concept: ConceptID(5),
            representation: Some(RepresentationID(6)),
        }))
    );
    assert_eq!(AnyID::from_str("a"), Err(ParseError::NotANumber));
    assert_eq!(AnyID::from_str("cr"), Err(ParseError::NotANumber));
    assert_eq!(AnyID::from_str("x5"), Err(ParseError::UnknownKind));
    assert_eq!(AnyID::from_str(""), Err(ParseError::UnknownKind));
    assert_eq!(AnyID::from_str("5"), Err(ParseError::UnknownKind));
}

#[test]
fn a_concept_is_a_node_of_its_number() {
    assert_eq!(NodeID::from(ConceptID(9)), NodeID(9));
}

#[test]
fn written_identifiers_are_read_back() {
    for n in [0usize, 1, 9, 10, 99, 100, 12345, usize::MAX] {
        assert_eq!(ConceptID::from_str(&ConceptID(n).html()[1..]), Ok(ConceptID(n)));
        assert_eq!(AnyID::parse(&ActivityID(n).html()), Ok(AnyID::Activity(ActivityID(n))));
        assert_eq!(AnyID::parse(&CourseID(n).html()), Ok(AnyID::Course(CourseID(n))));
    }
}
