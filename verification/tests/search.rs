use progression_website::concept_map::ConceptMap;
use progression_website::ids::{ConceptID, NodeID};
use progression_website::node::ConceptNode;
use progression_website::search::Search;

fn cheap(id: usize, children: &[usize]) -> ConceptNode {
    ConceptNode::CheapConcept {
        concept: ConceptID(id),
        children: children.iter().map(|c| NodeID(*c)).collect(),
    }
}

fn map(second_row: [usize; 2]) -> ConceptMap {
    ConceptMap {
        rows: vec![
            vec![cheap(0, &[3]), cheap(1, &[2])],
            vec![cheap(second_row[0], &[]), cheap(second_row[1], &[])],
        ],
    }
}

fn crossed() -> ConceptMap {
    map([2, 3])
}

fn free() -> ConceptMap {
    map([3, 2])
}

fn weights(s: &Search) -> Vec<(usize, u128)> {
    s.logw.iter().map(|(k, v)| (*k, *v)).collect()
}

#[test]
fn a_search_starts_with_weight_one_for_its_cost() {
    let s = Search::new(&crossed());
    assert_eq!((s.e, s.e_best, s.steps), (2, 2, 0));
    assert_eq!(weights(&s), vec![(2, 1)]);
    assert!(!s.done());
}

#[test]
fn a_cost_gains_its_own_value_in_weight() {
    // at the free map, whose cost weighs 1; the crossed map weighs nothing yet
    let mut s = Search::new(&free());
    s.step(crossed());
    assert_eq!((s.e, s.e_best), (2, 0));
    assert_eq!(weights(&s), vec![(0, 1), (2, 2)]);
    // back: 1 < 2
    s.step(free());
    assert_eq!((s.e, s.e_best), (0, 0));
    assert_eq!(weights(&s), vec![(0, 1), (2, 2)]);
    // not again: 2 is not less than 1, and the cost 0 adds nothing to its weight
    s.step(crossed());
    assert_eq!((s.e, s.e_best), (0, 0));
    assert_eq!(weights(&s), vec![(0, 1), (2, 2)]);
    assert_eq!(s.steps, 3);
}

#[test]
fn a_rejected_proposal_still_adds_weight() {
    let mut s = Search::new(&crossed());
    // the same cost: 1 is not less than 1
    s.step(crossed());
    assert_eq!((s.e, s.e_best), (2, 2));
    assert_eq!(weights(&s), vec![(2, 3)]);
    s.step(crossed());
    assert_eq!(weights(&s), vec![(2, 5)]);
}

#[test]
fn the_best_map_never_gets_dearer() {
    let mut s = Search::new(&crossed());
    let mut last = s.e_best;
    let proposals = [(1usize, 0usize, 0usize), (0, 0, 1), (1, 0, 1), (0, 1, 0), (1, 1, 0), (0, 0, 0)];
    for (a, b, c) in proposals {
        let trial = s.current.propose(a, b, c);
        s.step(trial);
        assert!(s.e_best <= last);
        assert_eq!(s.e_best, s.best.crossings());
        assert_eq!(s.e, s.current.crossings());
        last = s.e_best;
    }
    assert_eq!(last, 0);
}
