use progression_website::ids::ConceptID;
use progression_website::layering::{layer_concepts, layer_rows};

fn ids(rows: &Vec<Vec<ConceptID>>) -> Vec<Vec<usize>> {
    rows.iter().map(|r| r.iter().map(|c| c.0).collect()).collect()
}

fn edge(a: usize, b: usize) -> (ConceptID, ConceptID) {
    (ConceptID(a), ConceptID(b))
}

#[test]
fn diamond_takes_three_rows() {
    let rows = layer_concepts(vec![edge(0, 1), edge(0, 2), edge(1, 3), edge(2, 3)], 2);
    assert_eq!(ids(&rows), vec![vec![0], vec![1, 2], vec![3]]);
}

#[test]
fn skipping_edge_keeps_the_rows() {
    let rows = layer_concepts(vec![edge(0, 1), edge(0, 2), edge(1, 3), edge(0, 3)], 2);
    assert_eq!(ids(&rows), vec![vec![0], vec![1, 2], vec![3]]);
}

#[test]
fn no_edges_no_rows() {
    assert_eq!(layer_rows(&vec![], 4), Vec::<Vec<usize>>::new());
}

#[test]
fn pure_cycle_gives_singleton_rows() {
    let rows = layer_rows(&vec![(0, 1), (1, 2), (2, 0)], 3);
    assert_eq!(rows, vec![vec![0], vec![1], vec![2]]);
}

#[test]
fn cycle_behind_a_root_is_left_over() {
    // 0 -> 1 -> 2 -> 1: only 0 can be sequenced
    let rows = layer_rows(&vec![(0, 1), (1, 2), (2, 1)], 3);
    assert_eq!(rows, vec![vec![0], vec![1], vec![2]]);
}

#[test]
fn width_is_respected() {
    let rows = layer_rows(&vec![(0, 1), (0, 2), (0, 3), (0, 4), (0, 5)], 2);
    assert_eq!(rows, vec![vec![0], vec![1, 2], vec![3, 4], vec![5]]);
}
