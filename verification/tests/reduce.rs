use branch_graph::adjacency::{list_contains, prune, survivors};
use branch_graph::{AncestryGraph, Commit, EngineError};

fn node(text: &str) -> Commit {
    Commit::new(text.to_string())
}

/// A graph with the nodes `0..n` and the given edges from parent to child.
fn graph_of(n: usize, edges: &[(usize, usize)]) -> AncestryGraph {
    let mut graph = AncestryGraph::new();
    for v in 0..n {
        assert_eq!(graph.insert(node(&format!("n{v}"))), v);
    }
    for &(base, child) in edges {
        graph.link(base, child);
    }
    graph
}

fn lists_of(graph: &AncestryGraph) -> (Vec<Vec<usize>>, Vec<Vec<usize>>) {
    let children = (0..graph.len()).map(|v| graph.children_at(v).clone()).collect();
    let parents = (0..graph.len()).map(|v| graph.parents_at(v).clone()).collect();
    (children, parents)
}

#[test]
fn insert_keeps_one_node_for_a_commit() {
    let mut graph = AncestryGraph::new();
    assert_eq!(graph.insert(node("x")), 0);
    assert_eq!(graph.insert(node("y")), 1);
    assert_eq!(graph.insert(node("x")), 0);
    assert_eq!(graph.len(), 2);
    assert_eq!(graph.find(&node("y")), Some(1));
    assert_eq!(graph.find(&node("z")), None);
    assert!(graph.children_of(&node("z")).is_none());
    assert!(graph.parents_of(&node("z")).is_none());
}

#[test]
fn link_records_an_edge_once_and_never_a_loop() {
    let mut graph = graph_of(2, &[]);
    graph.link(0, 1);
    graph.link(0, 1);
    graph.link(1, 1);
    assert_eq!(graph.children_at(0), &vec![1]);
    assert_eq!(graph.parents_at(1), &vec![0]);
    assert!(graph.children_at(1).is_empty());
    assert!(graph.parents_at(0).is_empty());
    assert_eq!(graph.children_of(&node("n0")), Some(vec![node("n1")]));
    assert_eq!(graph.parents_of(&node("n1")), Some(vec![node("n0")]));
}

#[test]
fn root_is_the_one_node_without_parent() {
    assert_eq!(graph_of(3, &[(0, 1), (0, 2)]).root(), Ok(0));
    assert_eq!(graph_of(3, &[(2, 1), (2, 0)]).root(), Ok(2));
}

#[test]
fn several_parentless_nodes_are_no_root() {
    assert_eq!(graph_of(2, &[]).root(), Err(EngineError::NoRoot));
    assert_eq!(graph_of(3, &[(0, 2), (1, 2)]).root(), Err(EngineError::NoRoot));
}

#[test]
fn cycle_has_no_root() {
    let mut graph = graph_of(2, &[(0, 1), (1, 0)]);
    assert_eq!(graph.root(), Err(EngineError::NoRoot));
    let before = lists_of(&graph);
    assert_eq!(graph.reduce(), Err(EngineError::NoRoot));
    assert_eq!(lists_of(&graph), before);
}

#[test]
fn leaves_come_by_number_of_parents() {
    // 0 is the root; 3 has three parents, 4 one, 5 two; 6 stands alone.
    let graph = graph_of(
        7,
        &[(0, 1), (0, 2), (0, 3), (1, 3), (2, 3), (1, 4), (0, 5), (2, 5)],
    );
    assert_eq!(graph.leaves(), vec![6, 4, 5, 3]);
}

#[test]
fn leaves_with_equal_parents_come_in_node_order() {
    let graph = graph_of(4, &[(0, 3), (0, 1), (0, 2)]);
    assert_eq!(graph.leaves(), vec![1, 2, 3]);
}

#[test]
fn reduce_drops_what_a_sibling_provides() {
    // root -> mid -> {a, b}, and root -> {a, b, d} directly.
    let mut graph = graph_of(5, &[(0, 1), (0, 2), (0, 3), (0, 4), (1, 2), (1, 3)]);
    assert_eq!(graph.reduce(), Ok(0));
    let (children, parents) = lists_of(&graph);
    assert_eq!(children, vec![vec![1, 4], vec![2, 3], vec![], vec![], vec![]]);
    assert_eq!(parents, vec![vec![], vec![0], vec![1], vec![1], vec![0]]);
}

#[test]
fn reduce_leaves_a_minimal_graph_alone() {
    let mut graph = graph_of(3, &[(0, 1), (0, 2)]);
    let before = lists_of(&graph);
    assert_eq!(graph.reduce(), Ok(0));
    assert_eq!(lists_of(&graph), before);
}

#[test]
fn reduce_twice_is_reduce_once() {
    let mut graph = graph_of(
        7,
        &[(0, 1), (0, 2), (0, 3), (1, 3), (2, 3), (1, 4), (0, 4), (0, 5), (2, 5), (0, 6), (3, 6), (1, 6)],
    );
    assert_eq!(graph.reduce(), Ok(0));
    let once = lists_of(&graph);
    assert_eq!(graph.reduce(), Ok(0));
    assert_eq!(lists_of(&graph), once);
}

#[test]
fn reduce_keeps_nodes_and_removes_only_edges() {
    let edges = [(0, 1), (0, 2), (1, 2), (0, 3), (2, 3), (1, 3)];
    let mut graph = graph_of(4, &edges);
    let (children, parents) = lists_of(&graph);
    assert_eq!(graph.reduce(), Ok(0));
    assert_eq!(graph.len(), 4);
    let (kept_children, kept_parents) = lists_of(&graph);
    for v in 0..4 {
        assert!(kept_children[v].iter().all(|c| children[v].contains(c)));
        assert!(kept_parents[v].iter().all(|p| parents[v].contains(p)));
        assert!(!kept_children[v].contains(&v));
        assert!(!kept_parents[v].contains(&v));
    }
    assert_eq!(kept_children, vec![vec![1], vec![2], vec![3], vec![]]);
    assert_eq!(kept_parents, vec![vec![], vec![0], vec![1], vec![2]]);
}

#[test]
fn a_node_is_judged_by_the_lists_as_they_stand() {
    // The walk takes the last child first: 1 is pruned before 3, so that 3,
    // which has 1 and 2 as children, still sees 2 among the children of 1.
    let mut graph = graph_of(5, &[(0, 3), (0, 1), (3, 1), (3, 2), (1, 4), (1, 2), (4, 2)]);
    graph.prune_children(0);
    let (children, _) = lists_of(&graph);
    assert_eq!(children, vec![vec![3], vec![4], vec![], vec![1, 2], vec![2]]);
}

#[test]
fn prune_children_from_a_node_leaves_the_rest() {
    let mut graph = graph_of(4, &[(0, 1), (0, 2), (1, 2), (3, 1), (3, 2)]);
    graph.prune_children(0);
    let (children, parents) = lists_of(&graph);
    assert_eq!(children, vec![vec![1], vec![2], vec![], vec![1, 2]]);
    assert_eq!(parents, vec![vec![], vec![0, 3], vec![0, 1, 3], vec![]]);
}

#[test]
fn prune_parents_is_the_mirror_image() {
    let mut graph = graph_of(3, &[(0, 1), (0, 2), (1, 2)]);
    graph.prune_parents(2);
    let (children, parents) = lists_of(&graph);
    assert_eq!(parents, vec![vec![], vec![0], vec![1]]);
    assert_eq!(children, vec![vec![1, 2], vec![2], vec![]]);
}

#[test]
fn prune_from_a_node_out_of_range_does_nothing() {
    let mut graph = graph_of(2, &[(0, 1)]);
    graph.prune_children(7);
    graph.prune_parents(7);
    assert_eq!(lists_of(&graph), (vec![vec![1], vec![]], vec![vec![], vec![0]]));
}

#[test]
fn prune_ends_on_a_cycle() {
    // 0 drops 2, which 1 leads to; 2 is taken first and keeps 0; 1 then
    // drops 0, which 2 leads to, and keeps 2, which 0 no longer leads to.
    let mut lists = vec![vec![1, 2], vec![2, 0], vec![0]];
    prune(&mut lists, 0);
    assert_eq!(lists, vec![vec![1], vec![2], vec![0]]);
}

#[test]
fn survivors_are_the_members_no_other_member_leads_to() {
    let lists = vec![vec![1, 2, 3], vec![2], vec![], vec![1]];
    assert_eq!(survivors(&lists, 0), vec![3]);
    assert_eq!(survivors(&lists, 1), vec![2]);
    assert_eq!(survivors(&lists, 2), Vec::<usize>::new());
}

#[test]
fn list_contains_finds_members() {
    assert!(list_contains(&vec![4, 2, 9], 9));
    assert!(!list_contains(&vec![4, 2, 9], 3));
    assert!(!list_contains(&vec![], 0));
}

#[test]
fn reduce_of_a_cycle_may_lose_the_root() {
    // 1 and 2 are each other's parent, and both are parents of 3: each makes
    // the other redundant, 3 loses both, and the graph has two nodes without
    // a parent from then on.
    let mut graph = graph_of(4, &[(0, 1), (0, 2), (1, 2), (2, 1), (1, 3), (2, 3)]);
    assert_eq!(graph.reduce(), Ok(0));
    let (children, parents) = lists_of(&graph);
    assert_eq!(children, vec![vec![], vec![2, 3], vec![1], vec![]]);
    assert_eq!(parents, vec![vec![], vec![0, 2], vec![1], vec![]]);
    assert_eq!(graph.reduce(), Err(EngineError::NoRoot));
    assert_eq!(lists_of(&graph), (children, parents));
}
