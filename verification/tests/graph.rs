use progression_website::graph::{
    children_of, descendants_of, endpoints, insert_ascending, parents_of, Adjacency,
};

#[test]
fn endpoints_are_the_nodes_in_order() {
    assert_eq!(endpoints(&vec![(5, 2), (2, 9), (5, 9), (0, 5)]), vec![0, 2, 5, 9]);
    assert_eq!(endpoints(&vec![]), Vec::<usize>::new());
    assert_eq!(endpoints(&vec![(3, 3)]), vec![3]);
}

#[test]
fn ascending_lists_take_each_number_once() {
    let mut v = vec![1, 4, 9];
    insert_ascending(&mut v, 4);
    insert_ascending(&mut v, 0);
    insert_ascending(&mut v, 10);
    insert_ascending(&mut v, 5);
    assert_eq!(v, vec![0, 1, 4, 5, 9, 10]);
}

#[test]
fn children_and_parents_follow_the_edges() {
    let edges = vec![(0, 1), (0, 2), (1, 2), (0, 1)];
    assert_eq!(children_of(&edges, 0), vec![1, 2, 1]);
    assert_eq!(children_of(&edges, 2), Vec::<usize>::new());
    assert_eq!(parents_of(&edges, 2), vec![0, 1]);
    assert_eq!(parents_of(&edges, 0), Vec::<usize>::new());
}

#[test]
fn descendants_stop_after_thirty_generations() {
    let chain: Vec<(usize, usize)> = (0..40).map(|i| (i, i + 1)).collect();
    let d: Vec<usize> = descendants_of(&chain, 0).into_iter().collect();
    assert_eq!(d, (1..=30).collect::<Vec<usize>>());
    let d: Vec<usize> = descendants_of(&chain, 35).into_iter().collect();
    assert_eq!(d, vec![36, 37, 38, 39, 40]);
}

#[test]
fn descendants_leave_the_node_itself_out() {
    let cycle = vec![(0, 1), (1, 2), (2, 0)];
    let d: Vec<usize> = descendants_of(&cycle, 0).into_iter().collect();
    assert_eq!(d, vec![1, 2]);
    assert!(descendants_of(&cycle, 7).is_empty());
}

#[test]
fn tables_hold_what_the_functions_give() {
    let edges = vec![(0, 1), (0, 2), (1, 3), (2, 3)];
    let t = Adjacency::new(&edges);
    assert_eq!(t.ids, vec![0, 1, 2, 3]);
    assert_eq!(t.kids[&0], vec![1, 2]);
    assert_eq!(t.pars[&3], vec![1, 2]);
    assert_eq!(t.desc[&0].iter().cloned().collect::<Vec<usize>>(), vec![1, 2, 3]);
    assert!(t.desc[&3].is_empty());
}
