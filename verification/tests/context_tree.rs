use lib::comparator::{build_tree, contracted_leaves, drop_unreached, honest_leaves, kill_subtree, Node};
use lib::sa_frontier::{kill_below, lcp_depth, next_input, Builder, IdxHeap, Key, NONE};

#[test]
fn context_tree_of_one_byte() {
    // bits 1,0,0,0,0,0,0,0 after an all-zero history
    let nodes = build_tree(&[0b1000_0000u8], 1).unwrap();
    assert_eq!(nodes.len(), 3);
    assert_eq!(nodes[0].n, [7, 1]);
    assert_eq!(nodes[0].child, [1, 2]);
    assert_eq!(nodes[1].n, [6, 1]);
    assert_eq!(nodes[2].n, [1, 0]);
    assert_eq!(nodes[1].child, [0, 0]);
}

#[test]
fn context_tree_counts_split_between_children() {
    let data = b"abracadabra";
    let depth = 5;
    let nodes = build_tree(data, depth).unwrap();
    assert_eq!(nodes[0].n[0] + nodes[0].n[1], (data.len() * 8) as u32);
    for nd in nodes.iter() {
        if nd.child != [0, 0] {
            for x in 0..2 {
                let below: u32 = nd.child.iter().filter(|&&c| c != 0).map(|&c| nodes[c as usize].n[x]).sum();
                assert_eq!(nd.n[x], below);
            }
        }
    }
}

#[test]
fn context_tree_at_depth_zero() {
    let nodes = build_tree(b"\x0f", 0).unwrap();
    assert_eq!(nodes.len(), 1);
    assert_eq!(nodes[0].n, [4, 4]);
}

#[test]
fn lcp_depth_values() {
    assert_eq!(lcp_depth(0b1010, 0b1000, 4), 2);
    assert_eq!(lcp_depth(5, 5, 4), 4);
    assert_eq!(lcp_depth(0, 1, 1), 0);
    assert_eq!(lcp_depth(0b0111, 0b1111, 4), 0);
    assert_eq!(lcp_depth(0b0110, 0b0111, 4), 3);
}

#[test]
fn next_input_takes_smallest_head_last_on_ties() {
    assert_eq!(next_input(&vec![Some(5), None, Some(3), Some(3)]), Some(3));
    assert_eq!(next_input(&vec![Some(2), Some(9)]), Some(0));
    assert_eq!(next_input(&vec![None, None]), None);
    assert_eq!(next_input(&vec![]), None);
}

#[test]
fn patricia_tree_of_two_keys() {
    let mut b = Builder::new(2, 4);
    b.add(0b01, 5, 0);
    b.add(0b01, 3, 1);
    b.add(0b10, 7, 1);
    let (tr, root) = b.finish().unwrap();
    assert_eq!(root, 2);
    assert_eq!(tr.len(), 3);
    assert_eq!(tr.n0, vec![1, 0, 1]);
    assert_eq!(tr.n1, vec![1, 1, 2]);
    assert_eq!(tr.ch0, vec![NONE, NONE, 0]);
    assert_eq!(tr.ch1, vec![NONE, NONE, 1]);
    assert_eq!(tr.par, vec![2, 2, NONE]);
    assert_eq!(tr.dep, vec![2, 2, 0]);
    assert_eq!(tr.fo, vec![3, 7, 3]);
    assert_eq!(tr.k(0), 1);
    assert_eq!(tr.k(2), 0);
}

#[test]
fn patricia_tree_counts_every_record() {
    let keys: [u64; 9] = [1, 1, 4, 5, 5, 5, 9, 12, 15];
    let mut b = Builder::new(4, 16);
    for (i, &k) in keys.iter().enumerate() {
        b.add(k, 100 - i as u64, (i % 2) as u8);
    }
    let (tr, root) = b.finish().unwrap();
    let r = root as usize;
    assert_eq!(tr.par[r], NONE);
    assert_eq!(tr.n0[r] + tr.n1[r], keys.len() as u32);
    // six distinct keys: six terminals and five branchings
    assert_eq!(tr.len(), 11);
    for u in 0..tr.len() {
        if tr.ch0[u] != NONE {
            let (a, c) = (tr.ch0[u] as usize, tr.ch1[u] as usize);
            assert_eq!(tr.n0[u], tr.n0[a] + tr.n0[c]);
            assert_eq!(tr.n1[u], tr.n1[a] + tr.n1[c]);
            assert_eq!(tr.fo[u], tr.fo[a].min(tr.fo[c]));
            assert!(tr.dep[u] < tr.dep[a] && tr.dep[u] < tr.dep[c]);
        } else {
            assert_eq!(tr.dep[u], 4);
        }
    }
}

#[test]
fn empty_input_gives_no_tree() {
    let b = Builder::new(3, 4);
    assert!(b.finish().is_none());
}

fn key(alpha: u64, u: u32) -> Key {
    Key { alpha, fo: 0, dep: 0, idx: u }
}

#[test]
fn key_order_is_lexicographic() {
    let a = Key { alpha: 1, fo: 5, dep: 3, idx: 9 };
    assert!(a.lt(&Key { alpha: 2, fo: 0, dep: 0, idx: 0 }));
    assert!(a.lt(&Key { alpha: 1, fo: 6, dep: 0, idx: 0 }));
    assert!(a.lt(&Key { alpha: 1, fo: 5, dep: 4, idx: 0 }));
    assert!(a.lt(&Key { alpha: 1, fo: 5, dep: 3, idx: 10 }));
    assert!(!a.lt(&a));
}

#[test]
fn heap_pops_in_key_order() {
    let mut keys: Vec<Key> = vec![key(50, 0), key(10, 1), key(30, 2), key(10, 3), key(70, 4), key(20, 5)];
    let mut h = IdxHeap::new(keys.len());
    for u in 0..keys.len() as u32 {
        h.upsert(u, &keys);
    }
    assert_eq!(h.len(), 6);
    // change a key in place: node 4 moves to the front
    keys[4] = key(5, 4);
    h.upsert(4, &keys);
    assert_eq!(h.len(), 6);
    h.remove(2, &keys);
    assert_eq!(h.len(), 5);
    let mut out = Vec::new();
    while let Some(u) = h.pop_min(&keys) {
        out.push(u);
    }
    assert_eq!(out, vec![4, 1, 3, 5, 0]);
    assert_eq!(h.len(), 0);
}

#[test]
fn heap_removes_absent_nodes_quietly() {
    let keys: Vec<Key> = vec![key(3, 0), key(1, 1), key(2, 2)];
    let mut h = IdxHeap::new(3);
    h.upsert(0, &keys);
    h.remove(2, &keys);
    assert_eq!(h.len(), 1);
    assert_eq!(h.pop_min(&keys), Some(0));
    assert_eq!(h.pop_min(&keys), None);
}

/// Root with both children; child 1 has a single child of its own.
fn small_trie() -> Vec<Node> {
    vec![
        Node { n: [3, 3], child: [1, 2] },
        Node { n: [2, 1], child: [3, 0] },
        Node { n: [1, 2], child: [0, 0] },
        Node { n: [2, 1], child: [0, 0] },
    ]
}

#[test]
fn contracted_class_cuts_below_a_single_child() {
    let nodes = small_trie();
    assert_eq!(contracted_leaves(&nodes), (vec![2, 1], 1, 3));
}

#[test]
fn honest_class_keeps_the_missing_sibling() {
    let nodes = small_trie();
    assert_eq!(honest_leaves(&nodes), vec![Some(2), None, Some(3)]);
}

#[test]
fn classes_agree_on_a_full_tree() {
    let nodes = build_tree(&[0b1000_0000u8], 1).unwrap();
    assert_eq!(contracted_leaves(&nodes), (vec![2, 1], 0, 0));
    assert_eq!(honest_leaves(&nodes), vec![Some(2), Some(1)]);
}

#[test]
fn both_classes_account_for_every_bit() {
    let data = b"abracadabra";
    let nodes = build_tree(data, 5).unwrap();
    let (a, _, unary_mass) = contracted_leaves(&nodes);
    let b = honest_leaves(&nodes);
    let mass = |u: u32| (nodes[u as usize].n[0] + nodes[u as usize].n[1]) as u64;
    let a_mass: u64 = a.iter().map(|&u| mass(u)).sum();
    let b_mass: u64 = b.iter().filter_map(|l| *l).map(mass).sum();
    assert_eq!(a_mass, 88);
    assert_eq!(b_mass, 88);
    assert!(unary_mass <= a_mass);
    assert!(b.len() >= a.len());
}

#[test]
fn trie_children_come_after_parents() {
    let nodes = build_tree(b"abracadabra", 6).unwrap();
    for (i, nd) in nodes.iter().enumerate() {
        for &c in nd.child.iter() {
            if c != 0 {
                assert!(c as usize > i);
            }
        }
    }
}

#[test]
fn kill_subtree_marks_the_subtree_dead() {
    let nodes = small_trie();
    let mut leaves = vec![5, 6, 7, 8];
    kill_subtree(&mut leaves, &nodes, 1);
    assert_eq!(leaves, vec![5, 0, 7, 0]);
    kill_subtree(&mut leaves, &nodes, 0);
    assert_eq!(leaves, vec![0, 0, 0, 0]);
}

#[test]
fn drop_unreached_cuts_below_a_collapsed_node() {
    let nodes = small_trie();
    let mut leaves = vec![3, 1, 1, 1];
    drop_unreached(&mut leaves, &nodes);
    assert_eq!(leaves, vec![3, 1, 1, 0]);
}

#[test]
fn drop_unreached_leaves_an_uncut_tree() {
    let nodes = small_trie();
    let mut leaves = vec![3, 2, 1, 1];
    drop_unreached(&mut leaves, &nodes);
    assert_eq!(leaves, vec![3, 2, 1, 1]);
}

#[test]
fn patricia_terminals_hold_the_groups() {
    let keys: [u64; 9] = [1, 1, 4, 5, 5, 5, 9, 12, 15];
    let mut b = Builder::new(4, 16);
    for (i, &k) in keys.iter().enumerate() {
        b.add(k, 100 - i as u64, (i % 2) as u8);
    }
    let (tr, _) = b.finish().unwrap();
    let terminals: Vec<(u32, u32, u32)> = (0..tr.len())
        .filter(|&u| tr.ch0[u] == NONE)
        .map(|u| (tr.n0[u], tr.n1[u], tr.fo[u]))
        .collect();
    assert_eq!(terminals, vec![(1, 1, 99), (1, 0, 98), (1, 2, 95), (1, 0, 94), (0, 1, 93), (1, 0, 92)]);
}

#[test]
fn context_tree_holds_only_met_contexts() {
    let nodes = build_tree(&[0x01u8], 1).unwrap();
    assert_eq!(nodes.len(), 2);
    assert_eq!(nodes[0].n, [7, 1]);
    assert_eq!(nodes[0].child, [1, 0]);
    assert_eq!(nodes[1].n, [7, 1]);
    assert_eq!(nodes[1].child, [0, 0]);
    let big = build_tree(b"abracadabra", 6).unwrap();
    for nd in big.iter().skip(1) {
        assert!(nd.n[0] + nd.n[1] >= 1);
    }
}

#[test]
fn kill_below_takes_the_subtree_out() {
    let mut b = Builder::new(2, 4);
    b.add(0b01, 5, 0);
    b.add(0b01, 3, 1);
    b.add(0b10, 7, 1);
    let (tr, root) = b.finish().unwrap();
    assert_eq!(root, 2);
    let mut keys: Vec<Key> = (0..3u32).map(|u| key(u as u64 + 10, u)).collect();
    let mut heap = IdxHeap::new(3);
    for u in 0..3u32 {
        heap.upsert(u, &keys);
    }
    let mut leaves: Vec<u64> = vec![1, 1, 2];
    kill_below(&mut heap, &mut keys, &mut leaves, &tr, 1, 999);
    // node 1 is a terminal: nothing below it
    assert_eq!(leaves, vec![1, 1, 2]);
    assert_eq!(heap.len(), 3);
    kill_below(&mut heap, &mut keys, &mut leaves, &tr, root, 999);
    assert_eq!(leaves, vec![0, 0, 2]);
    assert_eq!(heap.len(), 1);
    assert_eq!(heap.pop_min(&keys), Some(2));
    assert_eq!(keys[0].alpha, 999);
    assert_eq!(keys[0].idx, 0);
    assert_eq!(keys[1].alpha, 999);
    assert_eq!(keys[2].alpha, 12);
}
