use progression_website::concept_map::ConceptMap;
use progression_website::ids::{ConceptID, NodeID};
use progression_website::layering::layer_concepts;
use progression_website::node::ConceptNode;

fn edge(a: usize, b: usize) -> (ConceptID, ConceptID) {
    (ConceptID(a), ConceptID(b))
}

fn cheap(id: usize, children: &[usize]) -> ConceptNode {
    ConceptNode::CheapConcept {
        concept: ConceptID(id),
        children: children.iter().map(|c| NodeID(*c)).collect(),
    }
}

fn fake(id: usize, child: usize) -> ConceptNode {
    ConceptNode::Fake { fakeid: NodeID(id), child: NodeID(child) }
}

/// (identifier, children, whether a pass-through node), row by row
fn shape(map: &ConceptMap) -> Vec<Vec<(usize, Vec<usize>, bool)>> {
    map.rows
        .iter()
        .map(|row| {
            row.iter()
                .map(|n| (n.id().0, n.children().iter().map(|c| c.0).collect(), n.is_fake()))
                .collect()
        })
        .collect()
}

fn sorted_ids(row: &Vec<ConceptNode>) -> Vec<usize> {
    let mut ids: Vec<usize> = row.iter().map(|n| n.id().0).collect();
    ids.sort();
    ids
}

#[test]
fn diamond_needs_no_pass_through_nodes() {
    let edges = vec![edge(0, 1), edge(0, 2), edge(1, 3), edge(2, 3)];
    let layers = layer_concepts(edges.clone(), 2);
    let map = ConceptMap::materialize(&layers, &edges, 4).unwrap();
    assert_eq!(
        shape(&map),
        vec![
            vec![(0, vec![1, 2], false)],
            vec![(1, vec![3], false), (2, vec![3], false)],
            vec![(3, vec![], false)],
        ]
    );
    assert_eq!(map.crossings(), 0);
    let best = map.optimize(1000);
    assert_eq!(best.crossings(), 0);
    assert_eq!(shape(&best), shape(&map));
}

#[test]
fn skipping_edge_gets_one_pass_through_node() {
    let edges = vec![edge(0, 1), edge(0, 2), edge(1, 3), edge(0, 3)];
    let layers = layer_concepts(edges.clone(), 2);
    let map = ConceptMap::materialize(&layers, &edges, 4).unwrap();
    let rows = shape(&map);
    assert_eq!(rows.len(), 3);
    assert_eq!(rows[0], vec![(0, vec![1, 2, 4], false)]);
    assert_eq!(sorted_ids(&map.rows[1]), vec![1, 2, 4]);
    let fakes: Vec<&(usize, Vec<usize>, bool)> = rows[1].iter().filter(|n| n.2).collect();
    assert_eq!(fakes, vec![&(4, vec![3], true)]);
    assert_eq!(rows[2], vec![(3, vec![], false)]);
}

#[test]
fn edge_over_two_rows_gets_a_chain() {
    // 0 -> 1 -> 2 -> 3 and 0 -> 3
    let edges = vec![edge(0, 1), edge(1, 2), edge(2, 3), edge(0, 3)];
    let layers = layer_concepts(edges.clone(), 1);
    let ids: Vec<Vec<usize>> = layers.iter().map(|r| r.iter().map(|c| c.0).collect()).collect();
    assert_eq!(ids, vec![vec![0], vec![1], vec![2], vec![3]]);
    let map = ConceptMap::materialize(&layers, &edges, 10).unwrap();
    assert_eq!(
        shape(&map),
        vec![
            vec![(0, vec![1, 10], false)],
            vec![(1, vec![2], false), (10, vec![11], true)],
            vec![(2, vec![3], false), (11, vec![3], true)],
            vec![(3, vec![], false)],
        ]
    );
}

#[test]
fn no_layers_no_rows() {
    let map = ConceptMap::materialize(&vec![], &vec![], 0).unwrap();
    assert_eq!(map.rows.len(), 0);
    assert_eq!(map.crossings(), 0);
    assert_eq!(map.optimize(10).rows.len(), 0);
    assert_eq!(map.random_change().rows.len(), 0);
}

#[test]
fn identifiers_can_run_out() {
    let edges = vec![edge(0, 1), edge(1, 2), edge(0, 2)];
    let layers = vec![vec![ConceptID(0)], vec![ConceptID(1)], vec![ConceptID(2)]];
    assert!(ConceptMap::materialize(&layers, &edges, usize::MAX).is_none());
    let map = ConceptMap::materialize(&layers, &edges, usize::MAX - 1).unwrap();
    assert_eq!(shape(&map)[1], vec![(1, vec![2], false), (usize::MAX - 1, vec![2], true)]);
}

#[test]
fn rows_are_ordered_by_barycenter() {
    // layer 0: 0 1 2; layer 1: 3 4. 3 has the parents 1 and 2 (places 1 and 2:
    // (1 + 2) * 1000 / 1 = 3000), 4 has the parents 0 and 1 (1000); 5 below
    // them so that the second row is not the last one.
    let edges = vec![edge(1, 3), edge(2, 3), edge(0, 4), edge(1, 4), edge(3, 5), edge(4, 5)];
    let layers = vec![
        vec![ConceptID(0), ConceptID(1), ConceptID(2)],
        vec![ConceptID(3), ConceptID(4)],
        vec![ConceptID(5)],
    ];
    let map = ConceptMap::materialize(&layers, &edges, 6).unwrap();
    let rows = shape(&map);
    assert_eq!(rows[0].iter().map(|n| n.0).collect::<Vec<_>>(), vec![0, 1, 2]);
    assert_eq!(rows[1].iter().map(|n| n.0).collect::<Vec<_>>(), vec![4, 3]);
}

fn crossed() -> ConceptMap {
    ConceptMap {
        rows: vec![vec![cheap(0, &[3]), cheap(1, &[2])], vec![cheap(2, &[]), cheap(3, &[])]],
    }
}

#[test]
fn one_crossing_costs_two() {
    assert_eq!(crossed().crossings(), 2);
}

#[test]
fn cost_counts_the_lean_of_the_edges() {
    // one node above three: places 250 above, 125, 375, 625 below;
    // the edges to the outer nodes lean by 125 and 375: 15625 + 140625,
    // and twelve such pairs of rows give 1875000 * 2 / 1000000 = 3
    let mut rows = Vec::new();
    for r in 0..12 {
        rows.push(vec![cheap(100 * r, &[100 * r + 1, 100 * r + 3])]);
        rows.push(vec![cheap(100 * r + 1, &[]), cheap(100 * r + 2, &[]), cheap(100 * r + 3, &[])]);
    }
    let map = ConceptMap { rows };
    assert_eq!(map.crossings(), 3);
}

#[test]
fn swap_exchanges_two_nodes() {
    let mut map = crossed();
    map.swap(1, 0, 1);
    assert_eq!(shape(&map)[1], vec![(3, vec![], false), (2, vec![], false)]);
    assert_eq!(map.crossings(), 0);
    map.swap(1, 0, 2);
    map.swap(2, 0, 1);
    assert_eq!(shape(&map)[1], vec![(3, vec![], false), (2, vec![], false)]);
}

#[test]
fn proposal_picks_row_and_places_by_remainder() {
    let map = crossed().propose(3, 4, 7);
    assert_eq!(shape(&map)[0], vec![(0, vec![3], false), (1, vec![2], false)]);
    assert_eq!(shape(&map)[1], vec![(3, vec![], false), (2, vec![], false)]);
}

#[test]
fn search_takes_the_proposal_that_removes_the_crossing() {
    let best = crossed().optimize_with(&vec![(1, 0, 1), (1, 0, 1)]);
    assert_eq!(best.crossings(), 0);
    assert_eq!(shape(&best)[1], vec![(3, vec![], false), (2, vec![], false)]);
}

#[test]
fn search_without_proposals_returns_the_map() {
    let best = crossed().optimize_with(&vec![]);
    assert_eq!(shape(&best), shape(&crossed()));
    assert_eq!(shape(&crossed().optimize(0)), shape(&crossed()));
}

#[test]
fn random_search_never_does_worse() {
    let map = crossed();
    let best = map.optimize(200);
    assert!(best.crossings() <= map.crossings());
    assert_eq!(sorted_ids(&best.rows[0]), vec![0, 1]);
    assert_eq!(sorted_ids(&best.rows[1]), vec![2, 3]);
}

#[test]
fn free_map_is_returned_as_it_is() {
    let mut map = crossed();
    map.swap(1, 0, 1);
    assert_eq!(map.crossings(), 0);
    assert_eq!(shape(&map.optimize(100)), shape(&map));
    assert_eq!(shape(&map.optimize_with(&vec![(0, 0, 1)])), shape(&map));
}

#[test]
fn random_change_keeps_the_rows() {
    let map = crossed();
    let changed = map.random_change();
    assert_eq!(sorted_ids(&changed.rows[0]), vec![0, 1]);
    assert_eq!(sorted_ids(&changed.rows[1]), vec![2, 3]);
}

#[test]
fn replace_child_leads_every_edge_on() {
    let mut node = cheap(0, &[5, 6, 5]);
    node.replace_child(NodeID(5), NodeID(9));
    assert_eq!(node.children(), vec![NodeID(9), NodeID(6), NodeID(9)]);
    let mut through = fake(7, 5);
    through.replace_child(NodeID(4), NodeID(9));
    assert_eq!(through.children(), vec![NodeID(5)]);
    through.replace_child(NodeID(5), NodeID(9));
    assert_eq!(through.children(), vec![NodeID(9)]);
    assert!(through.is_fake());
    assert!(!node.is_fake());
    assert_eq!(through.id(), NodeID(7));
}
