use lib::d2ctw::{Arena, Node, NONE};

/// An arena with the two paths of history bits 0,0 and 1,0 below the root.
fn two_paths(max_nodes: usize) -> Arena {
    let mut a = Arena::new(max_nodes);
    let mut path: Vec<u32> = Vec::new();
    assert_eq!(a.descend(0, 8, 2, &mut path), (true, 0, 1));
    assert_eq!(path, vec![0, 1, 2]);
    assert_eq!(a.descend(1, 8, 2, &mut path), (true, 0, 1));
    assert_eq!(path, vec![0, 3, 4]);
    a
}

#[test]
fn new_arena_holds_the_proper_root() {
    let a = Arena::new(10);
    assert_eq!(a.len(), 1);
    assert_eq!(a.free_count(), 0);
    assert_eq!(a.proper_count(), 1);
    let root = a.node(0);
    assert!(root.proper);
    assert!(root.is_leaf());
    assert_eq!(root.depth, 0);
    assert_eq!(root.n, [0, 0]);
}

#[test]
fn fresh_node_is_a_leaf_without_counts() {
    let nd = Node::fresh(3, 2, false);
    assert!(nd.is_leaf());
    assert_eq!(nd.parent, 3);
    assert_eq!(nd.depth, 2);
    assert_eq!(nd.n, [0, 0]);
    assert_eq!(nd.child, [NONE, NONE]);
    assert!(!nd.proper);
}

#[test]
fn alloc_child_links_a_fringe_node() {
    let mut a = Arena::new(10);
    assert_eq!(a.alloc_child(0, 1), Some(1));
    let c = a.node(1);
    assert_eq!(c.parent, 0);
    assert_eq!(c.depth, 1);
    assert!(!c.proper);
    assert_eq!(a.node(0).child, [NONE, 1]);
    assert_eq!(a.proper_count(), 1);
}

#[test]
fn alloc_child_refuses_beyond_the_budget() {
    let mut a = Arena::new(1);
    assert_eq!(a.alloc_child(0, 0), None);
    assert_eq!(a.len(), 1);
    assert!(a.node(0).is_leaf());
}

#[test]
fn descent_stops_fringe_levels_below_the_frontier() {
    let mut a = Arena::new(100);
    let mut path: Vec<u32> = Vec::new();
    // history bits 1, 0, 1: root -> child 1 -> child 0, two fringe levels
    assert_eq!(a.descend(0b101, 8, 2, &mut path), (true, 0, 1));
    assert_eq!(path, vec![0, 1, 2]);
    assert_eq!(a.node(0).child, [NONE, 1]);
    assert_eq!(a.node(1).child, [2, NONE]);
    assert_eq!(a.len(), 3);
    // a second descent along the same bits creates nothing
    assert_eq!(a.descend(0b101, 8, 2, &mut path), (true, 0, 3));
    assert_eq!(path, vec![0, 1, 2]);
    assert_eq!(a.len(), 3);
}

#[test]
fn descent_stops_at_the_maximum_depth() {
    let mut a = Arena::new(100);
    let mut path: Vec<u32> = Vec::new();
    assert_eq!(a.descend(0, 1, 5, &mut path), (true, 0, 1));
    assert_eq!(path, vec![0, 1]);
    assert_eq!(a.descend(0, 0, 5, &mut path), (true, 0, 1));
    assert_eq!(path, vec![0]);
}

#[test]
fn descent_reports_a_full_arena() {
    let mut a = Arena::new(2);
    let mut path: Vec<u32> = Vec::new();
    assert_eq!(a.descend(0, 8, 3, &mut path), (false, 0, 1));
    assert_eq!(path, vec![0, 1]);
    assert_eq!(a.len(), 2);
}

#[test]
fn descent_passes_proper_nodes_and_moves_the_frontier() {
    let mut a = Arena::new(100);
    let mut path: Vec<u32> = Vec::new();
    a.descend(0, 8, 2, &mut path);
    a.mark_proper(0);
    assert_eq!(a.proper_count(), 3);
    assert_eq!(a.descend(0, 8, 2, &mut path), (true, 2, 3));
    assert_eq!(path, vec![0, 1, 2, 3, 4]);
    assert_eq!(a.max_proper_depth(), 2);
}

#[test]
fn zero_fringe_keeps_the_descent_at_the_frontier() {
    let mut a = Arena::new(100);
    let mut path: Vec<u32> = Vec::new();
    assert_eq!(a.descend(0, 8, 0, &mut path), (true, 0, 1));
    assert_eq!(path, vec![0]);
    assert_eq!(a.len(), 1);
}

#[test]
fn is_ancestor_walks_up_the_parents() {
    let a = two_paths(100);
    assert!(a.is_ancestor(0, 2));
    assert!(a.is_ancestor(1, 2));
    assert!(a.is_ancestor(2, 2));
    assert!(!a.is_ancestor(3, 2));
    assert!(!a.is_ancestor(2, 1));
}

#[test]
fn subtree_size_counts_nodes_below() {
    let a = two_paths(100);
    assert_eq!(a.subtree_size(0), 4);
    assert_eq!(a.subtree_size(1), 1);
    assert_eq!(a.subtree_size(2), 0);
}

#[test]
fn mark_proper_counts_each_node_once() {
    let mut a = two_paths(100);
    a.mark_proper(1);
    assert_eq!(a.proper_count(), 2);
    assert!(a.node(2).proper);
    assert!(!a.node(1).proper);
    a.mark_proper(0);
    assert_eq!(a.proper_count(), 5);
    a.mark_proper(0);
    assert_eq!(a.proper_count(), 5);
}

#[test]
fn prune_frees_the_subtree_and_keeps_the_node() {
    let mut a = two_paths(100);
    a.mark_proper(0);
    assert_eq!(a.prune_subtree(3), 1);
    assert_eq!(a.free_count(), 1);
    assert_eq!(a.proper_count(), 4);
    assert!(a.node(3).is_leaf());
    assert!(!a.is_live(4));
    assert!(a.is_live(3));
    assert_eq!(a.prune_subtree(0), 3);
    assert_eq!(a.free_count(), 4);
    assert_eq!(a.proper_count(), 1);
    assert!(a.node(0).is_leaf());
    // freed entries are reused before the arena grows
    let mut path: Vec<u32> = Vec::new();
    assert_eq!(a.descend(0, 8, 1, &mut path), (true, 0, 1));
    assert_eq!(a.len(), 5);
    assert_eq!(a.free_count(), 3);
}

#[test]
fn prune_size_matches_subtree_size() {
    let mut a = two_paths(100);
    let below = a.subtree_size(0);
    assert_eq!(a.prune_subtree(0), below);
}

#[test]
fn count_adds_the_symbol_along_the_path() {
    let mut a = Arena::new(100);
    let mut path: Vec<u32> = Vec::new();
    a.descend(0, 8, 2, &mut path);
    a.count(&path, 1);
    a.count(&path, 0);
    a.count(&path, 1);
    for &i in path.iter() {
        assert_eq!(a.node(i).n, [1, 2]);
    }
}

#[test]
fn generator_is_xorshift64_star() {
    let mut a = Arena::new(4);
    a.set_seed(1);
    assert_eq!(a.rng_next(), 33554433u64.wrapping_mul(0x2545F4914F6CDD1D));
}

#[test]
fn prune_candidate_filters_the_draw() {
    let mut a = Arena::new(100);
    let mut path: Vec<u32> = Vec::new();
    a.descend(0, 8, 2, &mut path);
    // seed 1 draws node 1, a fringe node: never a candidate
    a.set_seed(1);
    assert_eq!(a.prune_candidate(0), None);
    a.mark_proper(0);
    // now proper, but an ancestor of node 2
    a.set_seed(1);
    assert_eq!(a.prune_candidate(2), None);
    a.set_seed(1);
    assert_eq!(a.prune_candidate(0), Some(1));
    // seed 2 draws the leaf 2, seed 3 the root
    a.set_seed(2);
    assert_eq!(a.prune_candidate(0), None);
    a.set_seed(3);
    assert_eq!(a.prune_candidate(0), None);
}

#[test]
fn expand_candidate_checks_the_budget() {
    let mut a = two_paths(5);
    a.mark_proper(0);
    // seed 4 draws node 1: proper, inner, off the path of 4, one node below
    a.set_seed(4);
    assert_eq!(a.expand_candidate(4, 1), Some((1, 1)));
    a.set_seed(4);
    assert_eq!(a.expand_candidate(4, 2), None);
    a.set_seed(4);
    assert_eq!(a.expand_candidate(2, 1), None);
    // seed 5 draws the leaf 2
    a.set_seed(5);
    assert_eq!(a.expand_candidate(4, 1), None);
}

#[test]
fn expand_within_budget_marks_the_subtree() {
    let mut a = two_paths(5);
    assert_eq!(a.expand_within_budget(2), (false, 0));
    assert_eq!(a.expand_within_budget(0), (true, 4));
    assert_eq!(a.proper_count(), 5);
    // the nodes below are counted again against the budget
    assert_eq!(a.expand_within_budget(0), (false, 4));
    assert_eq!(a.proper_count(), 5);
}

#[test]
fn expand_within_budget_refuses_when_short() {
    let mut a = two_paths(5);
    a.mark_proper(1);
    assert_eq!(a.proper_count(), 2);
    assert_eq!(a.expand_within_budget(0), (false, 4));
    assert_eq!(a.proper_count(), 2);
}
