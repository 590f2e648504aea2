use progression_website::concept::Concept;
use progression_website::concept_map::ConceptMap;
use progression_website::data::Data;
use progression_website::ids::{ConceptID, NodeID};
use progression_website::node::ConceptNode;
use std::collections::BTreeMap;

fn concept(id: usize, name: &str, prereqs: &[usize]) -> Concept {
    Concept {
        id: ConceptID(id),
        name: name.to_string(),
        prereq_concepts: prereqs.iter().map(|p| ConceptID(*p)).collect(),
        representations: BTreeMap::new(),
        figure: None,
        long_description: String::new(),
    }
}

fn store(prereqs: &[&[usize]]) -> Data {
    let mut d = Data::new();
    for (i, p) in prereqs.iter().enumerate() {
        d.concepts.push(concept(i, &format!("concept {}", i), p));
    }
    d
}

fn real_ids(row: &Vec<ConceptNode>) -> Vec<usize> {
    let mut ids: Vec<usize> = row.iter().filter(|n| !n.is_fake()).map(|n| n.id().0).collect();
    ids.sort();
    ids
}

fn fakes(row: &Vec<ConceptNode>) -> Vec<(usize, Vec<NodeID>)> {
    row.iter().filter(|n| n.is_fake()).map(|n| (n.id().0, n.children())).collect()
}

fn edges_lead_to_the_next_row(m: &ConceptMap, rows: usize) {
    for r in 0..rows {
        for n in m.rows[r].iter() {
            for c in n.children() {
                assert!(r + 1 < rows);
                assert!(m.rows[r + 1].iter().any(|x| x.id() == c));
            }
        }
    }
}

#[test]
fn edges_lead_from_prerequisite_to_dependent() {
    let d = store(&[&[], &[0], &[0], &[2, 1], &[]]);
    assert_eq!(
        d.edges(),
        vec![
            (ConceptID(0), ConceptID(1)),
            (ConceptID(0), ConceptID(2)),
            (ConceptID(2), ConceptID(3)),
            (ConceptID(1), ConceptID(3)),
        ]
    );
    assert_eq!(d.nodes(), vec![ConceptID(0), ConceptID(1), ConceptID(2), ConceptID(3)]);
    assert_eq!(d.orphans(), vec![ConceptID(4)]);
    let d = store(&[&[], &[]]);
    assert!(d.edges().is_empty());
    assert!(d.nodes().is_empty());
    assert_eq!(d.orphans(), vec![ConceptID(0), ConceptID(1)]);
}

#[test]
fn the_diamond_is_drawn_in_three_rows_and_one_for_the_orphan() {
    let d = store(&[&[], &[0], &[0], &[1, 2], &[]]);
    assert!(d.is_linked());
    let m = d.concept_map(2, 50).unwrap();
    assert_eq!(m.rows.len(), 4);
    assert_eq!(real_ids(&m.rows[0]), vec![0]);
    assert_eq!(real_ids(&m.rows[1]), vec![1, 2]);
    assert_eq!(real_ids(&m.rows[2]), vec![3]);
    assert_eq!(real_ids(&m.rows[3]), vec![4]);
    for row in m.rows.iter() {
        assert!(fakes(row).is_empty());
        for n in row.iter() {
            assert!(matches!(n, ConceptNode::Concept { .. }));
        }
    }
    edges_lead_to_the_next_row(&m, 3);
    assert!(m.rows[3][0].children().is_empty());
    match &m.rows[2][0] {
        ConceptNode::Concept { concept, .. } => {
            assert_eq!(concept.name, "concept 3");
            assert_eq!(concept.prereq_concepts, vec![ConceptID(1), ConceptID(2)]);
        },
        _ => panic!("a concept was expected"),
    }
}

#[test]
fn a_skipping_edge_is_drawn_through_a_pass_through_node() {
    //  0 -> 1, 0 -> 2, 1 -> 3, 0 -> 3
    let d = store(&[&[], &[0], &[0], &[1, 0]]);
    let m = d.concept_map(2, 20).unwrap();
    assert_eq!(m.rows.len(), 3);
    assert_eq!(real_ids(&m.rows[0]), vec![0]);
    assert_eq!(real_ids(&m.rows[1]), vec![1, 2]);
    assert_eq!(real_ids(&m.rows[2]), vec![3]);
    assert!(fakes(&m.rows[0]).is_empty());
    // the first free identifier is the number of concepts
    assert_eq!(fakes(&m.rows[1]), vec![(4, vec![NodeID(3)])]);
    assert!(fakes(&m.rows[2]).is_empty());
    edges_lead_to_the_next_row(&m, 3);
}

#[test]
fn a_cycle_is_drawn_with_every_concept_in_one_row() {
    let d = store(&[&[2], &[0], &[1]]);
    let m = d.concept_map(2, 10).unwrap();
    for c in 0..3 {
        let places = m.rows.iter().filter(|row| real_ids(row).contains(&c)).count();
        assert_eq!(places, 1);
        let times: usize = m.rows.iter().map(|row| real_ids(row).iter().filter(|x| **x == c).count()).sum();
        assert_eq!(times, 1);
    }
    // a cycle behind a root
    let d = store(&[&[], &[0, 3], &[1], &[2]]);
    let m = d.concept_map(3, 10).unwrap();
    for c in 0..4 {
        let times: usize = m.rows.iter().map(|row| real_ids(row).iter().filter(|x| **x == c).count()).sum();
        assert_eq!(times, 1);
    }
}

#[test]
fn no_row_is_wider_than_asked_for() {
    // one root with seven dependents, two of them with a dependent of their own
    let d = store(&[&[], &[0], &[0], &[0], &[0], &[0], &[0], &[0], &[1, 2], &[3, 8], &[], &[], &[], &[]]);
    for width in 1..5 {
        let m = d.concept_map(width, 30).unwrap();
        let mut seen = vec![0usize; 14];
        for row in m.rows.iter() {
            assert!(real_ids(row).len() <= width);
            for c in real_ids(row) {
                seen[c] += 1;
            }
        }
        assert_eq!(seen, vec![1usize; 14]);
        // the concepts without an edge come last, in rows as wide as allowed
        let tail: Vec<usize> = m.rows.iter().flat_map(|row| real_ids(row)).filter(|c| *c >= 10).collect();
        assert_eq!(tail, vec![10, 11, 12, 13]);
        let last = m.rows.last().unwrap();
        assert!(real_ids(last).contains(&13));
        let orphan_rows = (4 + width - 1) / width;
        let layered = m.rows.len() - orphan_rows;
        assert_eq!(real_ids(&m.rows[layered]), (10..(10 + width.min(4))).collect::<Vec<usize>>());
        edges_lead_to_the_next_row(&m, layered);
    }
}

#[test]
fn nothing_is_drawn_where_no_concept_has_an_edge() {
    let d = store(&[&[], &[], &[]]);
    let m = d.concept_map(2, 10).unwrap();
    assert!(m.rows.is_empty());
    let m = Data::new().concept_map(1, 0).unwrap();
    assert!(m.rows.is_empty());
    // whatever the width
    let m = d.concept_map(0, 10).unwrap();
    assert!(m.rows.is_empty());
    let m = Data::new().concept_map(0, 0).unwrap();
    assert!(m.rows.is_empty());
}

#[test]
fn orphans_are_appended_in_rows() {
    let mut m = ConceptMap { rows: Vec::new() };
    let orphans: Vec<ConceptID> = (0..5).map(ConceptID).collect();
    m.append_orphans(&orphans, 2);
    let ids: Vec<Vec<usize>> = m.rows.iter().map(|r| r.iter().map(|n| n.id().0).collect()).collect();
    assert_eq!(ids, vec![vec![0, 1], vec![2, 3], vec![4]]);
    for row in m.rows.iter() {
        for n in row.iter() {
            assert!(matches!(n, ConceptNode::CheapConcept { .. }));
            assert!(n.children().is_empty());
        }
    }
    m.append_orphans(&Vec::new(), 2);
    assert_eq!(m.rows.len(), 3);
}

#[test]
fn a_drawn_map_shows_its_concepts_in_full() {
    let d = store(&[&[], &[0]]);
    let m = ConceptMap {
        rows: vec![
            vec![ConceptNode::CheapConcept { concept: ConceptID(0), children: vec![NodeID(1)] }],
            vec![
                ConceptNode::CheapConcept { concept: ConceptID(1), children: vec![] },
                ConceptNode::Fake { fakeid: NodeID(2), child: NodeID(7) },
            ],
        ],
    };
    let m = m.make_expensive(&d);
    assert_eq!(m.rows.len(), 2);
    match &m.rows[0][0] {
        ConceptNode::Concept { concept, children } => {
            assert_eq!(concept.id, ConceptID(0));
            assert_eq!(concept.needed_for_concepts, vec![ConceptID(1)]);
            assert_eq!(children, &vec![NodeID(1)]);
        },
        _ => panic!("a concept was expected"),
    }
    assert!(matches!(&m.rows[1][0], ConceptNode::Concept { .. }));
    assert_eq!(m.rows[1][1], ConceptNode::Fake { fakeid: NodeID(2), child: NodeID(7) });
}

#[test]
fn a_concept_that_is_shown_in_full_is_left_as_it_is() {
    // a concept of a larger store, shown in full
    let large = store(&[&[], &[0], &[1], &[2], &[3], &[4]]);
    let full = ConceptNode::Concept { concept: large.concept_view(ConceptID(5)), children: vec![NodeID(9)] };
    let small = store(&[&[], &[0]]);
    let m = ConceptMap {
        rows: vec![vec![
            full,
            ConceptNode::CheapConcept { concept: ConceptID(1), children: vec![] },
            ConceptNode::Fake { fakeid: NodeID(40), child: NodeID(41) },
        ]],
    };
    let m = m.make_expensive(&small);
    assert_eq!(m.rows.len(), 1);
    assert_eq!(m.rows[0].len(), 3);
    match &m.rows[0][0] {
        ConceptNode::Concept { concept, children } => {
            assert_eq!(concept.id, ConceptID(5));
            assert_eq!(concept.name, "concept 5");
            assert_eq!(concept.prereq_concepts, vec![ConceptID(4)]);
            assert_eq!(concept.all_concepts.len(), 6);
            assert_eq!(children, &vec![NodeID(9)]);
        },
        _ => panic!("a concept was expected"),
    }
    match &m.rows[0][1] {
        ConceptNode::Concept { concept, children } => {
            assert_eq!(concept.id, ConceptID(1));
            assert_eq!(concept.name, "concept 1");
            assert_eq!(concept.prereq_concepts, vec![ConceptID(0)]);
            assert_eq!(concept.all_concepts.len(), 2);
            assert!(children.is_empty());
        },
        _ => panic!("a concept was expected"),
    }
    assert_eq!(m.rows[0][2], ConceptNode::Fake { fakeid: NodeID(40), child: NodeID(41) });
}

#[test]
fn a_rerouted_node_stands_for_what_it_stood_for() {
    let d = store(&[&[], &[0], &[0]]);
    let mut node = ConceptNode::Concept {
        concept: d.concept_view(ConceptID(0)),
        children: vec![NodeID(1), NodeID(2), NodeID(1)],
    };
    node.replace_child(NodeID(1), NodeID(7));
    match &node {
        ConceptNode::Concept { concept, children } => {
            assert_eq!(children, &vec![NodeID(7), NodeID(2), NodeID(7)]);
            assert_eq!(concept.id, ConceptID(0));
            assert_eq!(concept.name, "concept 0");
            assert_eq!(concept.needed_for_concepts, vec![ConceptID(1), ConceptID(2)]);
            assert_eq!(concept.long_description, "");
        },
        _ => panic!("a concept was expected"),
    }
    let mut cheap = ConceptNode::CheapConcept { concept: ConceptID(3), children: vec![NodeID(4)] };
    cheap.replace_child(NodeID(4), NodeID(5));
    assert_eq!(cheap, ConceptNode::CheapConcept { concept: ConceptID(3), children: vec![NodeID(5)] });
    let mut fake = ConceptNode::Fake { fakeid: NodeID(8), child: NodeID(4) };
    fake.replace_child(NodeID(4), NodeID(5));
    assert_eq!(fake, ConceptNode::Fake { fakeid: NodeID(8), child: NodeID(5) });
    fake.replace_child(NodeID(4), NodeID(6));
    assert_eq!(fake, ConceptNode::Fake { fakeid: NodeID(8), child: NodeID(5) });
}
