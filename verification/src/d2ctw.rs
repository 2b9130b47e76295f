//! The node arena of the dynamic-depth CTW baseline (D2-CTW): a context tree
//! of proper nodes with a fringe below the frontier, a free list, and the
//! count of proper nodes that the memory budget is checked against. The
//! likelihood ratios of the model live beside the arena.
use vstd::prelude::*;
use crate::ctw::{hist_bit, lemma_hist_bit, xorshift_output, xorshift_state};

verus! {

/// Index 0 is the root, so it serves as "no child".
pub const NONE: u32 = 0;

/// A node of the arena.
#[derive(Clone, Copy, Debug)]
pub struct Node {
    pub n: [u32; 2],
    pub child: [u32; 2],
    pub parent: u32,
    pub depth: u16,
    /// Part of the model; otherwise a fringe node, counted but not used above
    /// the frontier.
    pub proper: bool,
}

/// A node as created: no counts, no children.
pub open spec fn is_fresh(nd: Node, parent: u32, depth: u16, proper: bool) -> bool {
    &&& nd.n[0] == 0
    &&& nd.n[1] == 0
    &&& nd.child[0] == NONE
    &&& nd.child[1] == NONE
    &&& nd.parent == parent
    &&& nd.depth == depth
    &&& nd.proper == proper
}

/// The node has no children.
pub open spec fn leaf(nd: Node) -> bool {
    nd.child[0] == NONE && nd.child[1] == NONE
}

impl Node {
    /// A fresh node: sigma = 1 for every context.
    pub fn fresh(parent: u32, depth: u16, proper: bool) -> (nd: Node)
        ensures
            is_fresh(nd, parent, depth, proper),
    {
        Node { n: [0, 0], child: [NONE, NONE], parent, depth, proper }
    }

    /// The node has no children.
    pub fn is_leaf(&self) -> (r: bool)
        ensures
            r == leaf(*self),
    {
        self.child[0] == NONE && self.child[1] == NONE
    }
}

/// Node i is in the tree: in the arena and not free.
pub open spec fn live(nodes: Seq<Node>, free: Seq<u32>, i: int) -> bool {
    0 <= i < nodes.len() && !free.contains(i as u32)
}

/// The live nodes form a tree under the root: every child of a live node is
/// live, one level deeper and points back; every live node but the root hangs
/// under its parent; free entries are distinct non-root nodes.
pub open spec fn tree_ok(nodes: Seq<Node>, free: Seq<u32>) -> bool {
    &&& 1 <= nodes.len() <= 0xFFFF_FFFF
    &&& !free.contains(0)
    &&& nodes[0].depth == 0
    &&& nodes[0].parent == NONE
    &&& free.no_duplicates()
    &&& forall|k: int| 0 <= k < free.len() ==> #[trigger] free[k] < nodes.len()
    &&& forall|i: int, b: int|
        live(nodes, free, i) && 0 <= b < 2 && #[trigger] nodes[i].child[b] != NONE ==> {
            let c = nodes[i].child[b] as int;
            &&& live(nodes, free, c)
            &&& nodes[c].parent == i
            &&& nodes[c].depth == nodes[i].depth + 1
        }
    &&& forall|i: int| live(nodes, free, i) ==> #[trigger] nodes[i].child[0] != nodes[i].child[1] || nodes[i].child[0] == NONE
    &&& forall|i: int|
        live(nodes, free, i) && i != 0 ==> {
            let p = #[trigger] nodes[i].parent as int;
            &&& live(nodes, free, p)
            &&& (nodes[p].child[0] == i || nodes[p].child[1] == i)
        }
}

/// `a` is `b` or lies on the way from `b` up to the root within `fuel` steps.
pub open spec fn on_root_path(nodes: Seq<Node>, a: int, b: int, fuel: nat) -> bool
    decreases fuel,
{
    if a == b {
        true
    } else if b == 0 || fuel == 0 {
        false
    } else {
        on_root_path(nodes, a, nodes[b].parent as int, (fuel - 1) as nat)
    }
}

/// Node w after k steps up its parents.
pub open spec fn anc(nodes: Seq<Node>, w: int, k: nat) -> int
    decreases k,
{
    if k == 0 {
        w
    } else {
        anc(nodes, nodes[w].parent as int, (k - 1) as nat)
    }
}

/// w lies strictly below u: u is reached from w by going up at least once.
pub open spec fn strictly_below(nodes: Seq<Node>, w: int, u: int) -> bool {
    w != 0 && exists|k: nat| k >= 1 && #[trigger] anc(nodes, w, k) == u
}

/// Fuel enough to walk below a node of depth d: no node is deeper than the
/// largest `u16`.
pub open spec fn fuel_at(d: u16) -> nat {
    (0x10000 - d) as nat
}

/// Number of nodes strictly below u.
pub open spec fn desc_count(nodes: Seq<Node>, u: int, fuel: nat) -> nat
    decreases fuel,
{
    if fuel == 0 {
        0
    } else {
        let c0 = nodes[u].child[0];
        let c1 = nodes[u].child[1];
        (if c0 != NONE {
            1 + desc_count(nodes, c0 as int, (fuel - 1) as nat)
        } else {
            0
        }) + (if c1 != NONE {
            1 + desc_count(nodes, c1 as int, (fuel - 1) as nat)
        } else {
            0
        })
    }
}

/// Sum of the numbers of nodes below the entries of a stack.
pub open spec fn pending(nodes: Seq<Node>, st: Seq<u32>) -> nat
    decreases st.len(),
{
    if st.len() == 0 {
        0
    } else {
        pending(nodes, st.drop_last()) + desc_count(nodes, st.last() as int, fuel_at(nodes[st.last() as int].depth))
    }
}

/// A walk that takes the children of every node it has done, started at u
/// and with nothing left to do, has seen every node below u.
pub proof fn lemma_walk_complete(nodes: Seq<Node>, free: Seq<u32>, seen: Set<int>, u: int, w: int, k: nat)
    requires
        tree_ok(nodes, free),
        seen.contains(u),
        forall|v: int, b: int|
            seen.contains(v) && 0 <= b < 2 && #[trigger] nodes[v].child[b] != NONE ==> seen.contains(nodes[v].child[b] as int),
        live(nodes, free, w),
        w != 0,
        k >= 1,
        anc(nodes, w, k) == u,
    ensures
        seen.contains(w),
    decreases k,
{
    let p = nodes[w].parent as int;
    assert(live(nodes, free, p));
    assert(anc(nodes, w, k) == anc(nodes, p, (k - 1) as nat));
    if p != u {
        if p == 0 {
            lemma_anc_root(nodes, (k - 1) as nat);
        } else {
            lemma_walk_complete(nodes, free, seen, u, p, (k - 1) as nat);
        }
    }
    if nodes[p].child[0] == w {
        assert(nodes[p].child[0] != NONE);
    } else {
        assert(nodes[p].child[1] != NONE);
    }
}

/// Going up from the root stays at the root (its parent field is 0).
pub proof fn lemma_anc_root(nodes: Seq<Node>, k: nat)
    requires
        nodes.len() >= 1,
        nodes[0].parent == 0,
    ensures
        anc(nodes, 0, k) == 0,
    decreases k,
{
    if k > 0 {
        lemma_anc_root(nodes, (k - 1) as nat);
    }
}

/// Going up k steps from a live node reaches a live node k levels higher, or
/// the root.
pub proof fn lemma_anc_depth(nodes: Seq<Node>, free: Seq<u32>, w: int, k: nat)
    requires
        tree_ok(nodes, free),
        live(nodes, free, w),
    ensures
        live(nodes, free, anc(nodes, w, k)),
        nodes[anc(nodes, w, k)].depth == if k >= nodes[w].depth { 0 } else { nodes[w].depth - k },
        k >= nodes[w].depth ==> anc(nodes, w, k) == 0,
    decreases k,
{
    if k > 0 {
        if w == 0 {
            lemma_anc_root(nodes, k);
        } else {
            let p = nodes[w].parent as int;
            assert(live(nodes, free, p));
            if nodes[p].child[0] == w {
                assert(nodes[p].child[0] != NONE);
            } else {
                assert(nodes[p].child[1] != NONE);
            }
            lemma_anc_depth(nodes, free, p, (k - 1) as nat);
        }
    } else {
        if nodes[w].depth == 0 && w != 0 {
            let p = nodes[w].parent as int;
            if nodes[p].child[0] == w {
                assert(nodes[p].child[0] != NONE);
            } else {
                assert(nodes[p].child[1] != NONE);
            }
        }
    }
}

/// No node lies strictly below itself.
pub proof fn lemma_not_below_self(nodes: Seq<Node>, free: Seq<u32>, u: int)
    requires
        tree_ok(nodes, free),
        live(nodes, free, u),
    ensures
        !strictly_below(nodes, u, u),
{
    if strictly_below(nodes, u, u) {
        let k = choose|k: nat| k >= 1 && #[trigger] anc(nodes, u, k) == u;
        lemma_anc_depth(nodes, free, u, k);
    }
}

/// Pushing a newly seen node keeps the stack of a walk equal to the seen
/// nodes not done yet (but the one being expanded).
pub proof fn lemma_push_pending(stb: Seq<u32>, c: u32, seen_b: Set<int>, done: Set<int>, v: u32)
    requires
        forall|x: u32| #[trigger] seen_b.contains(x as int) && !done.contains(x as int) && x != v <==> stb.contains(x),
        forall|k: int| 0 <= k < stb.len() ==> seen_b.contains(#[trigger] stb[k] as int),
        stb.no_duplicates(),
        !stb.contains(v),
        !seen_b.contains(c as int),
        !done.contains(c as int),
        c != v,
    ensures
        forall|x: u32| #[trigger] seen_b.insert(c as int).contains(x as int) && !done.contains(x as int) && x != v
            <==> stb.push(c).contains(x),
        forall|k: int| 0 <= k < stb.push(c).len() ==> seen_b.insert(c as int).contains(#[trigger] stb.push(c)[k] as int),
        stb.push(c).no_duplicates(),
        !stb.push(c).contains(v),
{
    let st = stb.push(c);
    let seen = seen_b.insert(c as int);
    assert forall|x: u32| #[trigger] seen.contains(x as int) && !done.contains(x as int) && x != v <==> st.contains(x) by {
        if st.contains(x) {
            let k = choose|k: int| 0 <= k < st.len() && st[k] == x;
            if k < stb.len() {
                assert(stb[k] == x);
                assert(stb.contains(x));
            }
        }
        if seen.contains(x as int) && !done.contains(x as int) && x != v {
            if x == c {
                assert(st[st.len() - 1] == c);
            } else {
                assert(stb.contains(x));
                let k = choose|k: int| 0 <= k < stb.len() && stb[k] == x;
                assert(st[k] == x);
            }
        }
    }
    assert forall|k: int| 0 <= k < st.len() implies seen.contains(#[trigger] st[k] as int) by {
        if k < stb.len() {
            assert(st[k] == stb[k]);
        }
    }
    assert forall|i: int, j: int| 0 <= i < st.len() && 0 <= j < st.len() && i != j implies st[i] != st[j] by {
        if i < stb.len() && j < stb.len() {
            assert(stb[i] != stb[j]);
        } else if i < stb.len() {
            assert(seen_b.contains(stb[i] as int));
        } else if j < stb.len() {
            assert(seen_b.contains(stb[j] as int));
        }
    }
    if st.contains(v) {
        let k = choose|k: int| 0 <= k < st.len() && st[k] == v;
        if k < stb.len() {
            assert(stb[k] == v);
            assert(stb.contains(v));
        }
    }
}

/// A set of integers in [0, n) has at most n elements.
pub proof fn lemma_small_set(s: Set<int>, n: int)
    requires
        n >= 0,
        forall|i: int| #[trigger] s.contains(i) ==> 0 <= i < n,
    ensures
        s.finite(),
        s.len() <= n,
{
    vstd::set_lib::lemma_int_range(0, n);
    assert(s.subset_of(vstd::set_lib::set_int_range(0, n)));
    vstd::set_lib::lemma_len_subset(s, vstd::set_lib::set_int_range(0, n));
}

/// The live proper nodes.
pub open spec fn proper_nodes(nodes: Seq<Node>, free: Seq<u32>) -> Set<int> {
    Set::new(|i: int| live(nodes, free, i) && nodes[i].proper)
}

/// A node after counting symbol x: its counter for x grows by one, and
/// nothing else changes.
pub open spec fn counted_at(now: Node, before: Node, x: int) -> bool {
    &&& now.n[x] == before.n[x] + 1
    &&& now.n[1 - x] == before.n[1 - x]
    &&& now.child == before.child
    &&& now.parent == before.parent
    &&& now.depth == before.depth
    &&& now.proper == before.proper
}

/// The subtree of u, u first, in the order of a walk that goes into child 1
/// before child 0.
pub open spec fn walk_order(nodes: Seq<Node>, u: int, fuel: nat) -> Seq<u32>
    decreases fuel,
{
    if fuel == 0 {
        seq![u as u32]
    } else {
        let c0 = nodes[u].child[0];
        let c1 = nodes[u].child[1];
        seq![u as u32] + (if c1 != NONE {
            walk_order(nodes, c1 as int, (fuel - 1) as nat)
        } else {
            Seq::empty()
        }) + (if c0 != NONE {
            walk_order(nodes, c0 as int, (fuel - 1) as nat)
        } else {
            Seq::empty()
        })
    }
}

/// What a stack of such walks has left to give, top first.
pub open spec fn walk_stack(nodes: Seq<Node>, st: Seq<u32>) -> Seq<u32>
    decreases st.len(),
{
    if st.len() == 0 {
        Seq::empty()
    } else {
        walk_order(nodes, st.last() as int, fuel_at(nodes[st.last() as int].depth)) + walk_stack(nodes, st.drop_last())
    }
}

/// The nodes below s in the order in which pruning frees them: the subtree
/// of child 1, then that of child 0.
pub open spec fn prune_order(nodes: Seq<Node>, s: int) -> Seq<u32> {
    let c0 = nodes[s].child[0];
    let c1 = nodes[s].child[1];
    let f = (fuel_at(nodes[s].depth) - 1) as nat;
    (if c1 != NONE {
        walk_order(nodes, c1 as int, f)
    } else {
        Seq::empty()
    }) + (if c0 != NONE {
        walk_order(nodes, c0 as int, f)
    } else {
        Seq::empty()
    })
}

/// The live nodes strictly below u.
pub open spec fn below(nodes: Seq<Node>, free: Seq<u32>, u: int) -> Set<int> {
    Set::new(|i: int| live(nodes, free, i) && strictly_below(nodes, i, u))
}

/// The live proper nodes strictly below u.
pub open spec fn proper_below(nodes: Seq<Node>, free: Seq<u32>, u: int) -> Set<int> {
    Set::new(|i: int| live(nodes, free, i) && nodes[i].proper && strictly_below(nodes, i, u))
}

/// The live fringe nodes strictly below u.
pub open spec fn fringe_below(nodes: Seq<Node>, free: Seq<u32>, u: int) -> Set<int> {
    Set::new(|i: int| live(nodes, free, i) && !nodes[i].proper && strictly_below(nodes, i, u))
}

/// A node strictly below u hangs under u itself or under another node
/// strictly below u.
pub proof fn lemma_below_parent(nodes: Seq<Node>, free: Seq<u32>, c: int, u: int)
    requires
        tree_ok(nodes, free),
        live(nodes, free, c),
        strictly_below(nodes, c, u),
    ensures
        nodes[c].parent as int == u || strictly_below(nodes, nodes[c].parent as int, u),
{
    let p = nodes[c].parent as int;
    let k = choose|k: nat| k >= 1 && #[trigger] anc(nodes, c, k) == u;
    assert(anc(nodes, c, k) == anc(nodes, p, (k - 1) as nat));
    if k >= 2 && p != u {
        if p == 0 {
            lemma_anc_root(nodes, (k - 1) as nat);
        }
        assert(anc(nodes, p, (k - 1) as nat) == u);
    }
}

/// A child of u, or of a node strictly below u, lies strictly below u.
pub proof fn lemma_below_child(nodes: Seq<Node>, c: int, u: int)
    requires
        c != 0,
        nodes[c].parent as int == u || strictly_below(nodes, nodes[c].parent as int, u),
    ensures
        strictly_below(nodes, c, u),
{
    let p = nodes[c].parent as int;
    reveal_with_fuel(anc, 2);
    assert(anc(nodes, c, 1) == p);
    if p != u {
        let k = choose|k: nat| k >= 1 && #[trigger] anc(nodes, p, k) == u;
        assert(anc(nodes, c, k + 1) == anc(nodes, p, k));
    }
}

/// What a finished walk under s leaves: the freed nodes are exactly those
/// below s, and the arena with s cut off is again a tree.
pub proof fn lemma_prune_end(
    n0: Seq<Node>,
    free0: Seq<u32>,
    nodes1: Seq<Node>,
    fr: Seq<u32>,
    seen: Set<int>,
    done: Set<int>,
    s: int,
)
    requires
        tree_ok(n0, free0),
        live(n0, free0, s),
        nodes1 == n0.update(s, Node { child: [NONE, NONE], ..n0[s] }),
        forall|x: u32| #[trigger] fr.contains(x) <==> done.contains(x as int) && x != s,
        fr.no_duplicates(),
        seen.contains(s),
        done.contains(s),
        seen.subset_of(done),
        done.subset_of(seen),
        forall|w: int| #[trigger] seen.contains(w) ==> live(n0, free0, w),
        forall|w: int| #[trigger] seen.contains(w) && w != s ==> strictly_below(n0, w, s),
        forall|v: int, b: int|
            done.contains(v) && 0 <= b < 2 && #[trigger] n0[v].child[b] != NONE ==> seen.contains(n0[v].child[b] as int),
    ensures
        tree_ok(nodes1, free0 + fr),
        forall|x: u32| #[trigger] fr.contains(x) <==> below(n0, free0, s).contains(x as int),
        forall|i: int| #[trigger] live(nodes1, free0 + fr, i) <==> live(n0, free0, i) && !below(n0, free0, s).contains(i),
        proper_nodes(nodes1, free0 + fr) == proper_nodes(n0, free0).difference(proper_below(n0, free0, s)),
{
    let nf = free0 + fr;
    let bl = below(n0, free0, s);
    assert forall|x: u32| #[trigger] fr.contains(x) <==> bl.contains(x as int) by {
        if bl.contains(x as int) {
            let k = choose|k: nat| k >= 1 && #[trigger] anc(n0, x as int, k) == s;
            lemma_walk_complete(n0, free0, seen, s, x as int, k);
            lemma_not_below_self(n0, free0, s);
        }
    }
    assert forall|x: u32| #[trigger] nf.contains(x) <==> free0.contains(x) || fr.contains(x) by {
        if nf.contains(x) {
            let k = choose|k: int| 0 <= k < nf.len() && nf[k] == x;
            if k < free0.len() {
                assert(free0[k] == x);
            } else {
                assert(fr[k - free0.len()] == x);
            }
        }
        if free0.contains(x) {
            let k = choose|k: int| 0 <= k < free0.len() && free0[k] == x;
            assert(nf[k] == x);
        }
        if fr.contains(x) {
            let k = choose|k: int| 0 <= k < fr.len() && fr[k] == x;
            assert(nf[free0.len() + k] == x);
        }
    }
    assert forall|i: int| #[trigger] live(nodes1, nf, i) <==> live(n0, free0, i) && !bl.contains(i) by {
        if 0 <= i < n0.len() {
            assert(nf.contains(i as u32) <==> free0.contains(i as u32) || fr.contains(i as u32));
            assert(fr.contains(i as u32) <==> bl.contains(i));
        }
    }
    assert forall|i: int, b: int|
        live(nodes1, nf, i) && 0 <= b < 2 && #[trigger] nodes1[i].child[b] != NONE implies {
        let c = nodes1[i].child[b] as int;
        &&& live(nodes1, nf, c)
        &&& nodes1[c].parent == i
        &&& nodes1[c].depth == nodes1[i].depth + 1
    } by {
        assert(i != s);
        let c = n0[i].child[b] as int;
        assert(live(n0, free0, c));
        if bl.contains(c) {
            lemma_below_parent(n0, free0, c, s);
        }
        assert(nodes1[c].parent == n0[c].parent && nodes1[c].depth == n0[c].depth);
    }
    assert forall|i: int| live(nodes1, nf, i) && i != 0 implies {
        let p = #[trigger] nodes1[i].parent as int;
        &&& live(nodes1, nf, p)
        &&& (nodes1[p].child[0] == i || nodes1[p].child[1] == i)
    } by {
        let p = n0[i].parent as int;
        assert(live(n0, free0, p));
        if p == s || bl.contains(p) {
            lemma_below_child(n0, i, s);
            assert(bl.contains(i));
        }
    }
    assert forall|i: int| live(nodes1, nf, i) implies #[trigger] nodes1[i].child[0] != nodes1[i].child[1] || nodes1[i].child[0] == NONE by {
    }
    assert(!nf.contains(0)) by {
        assert(!bl.contains(0));
    }
    assert(nf.no_duplicates()) by {
        assert forall|i: int, j: int| 0 <= i < nf.len() && 0 <= j < nf.len() && i != j implies nf[i] != nf[j] by {
            if i < free0.len() && j < free0.len() {
                assert(free0[i] != free0[j]);
            } else if i >= free0.len() && j >= free0.len() {
                assert(fr[i - free0.len()] != fr[j - free0.len()]);
            } else if i < free0.len() {
                assert(fr.contains(nf[j]));
                assert(free0.contains(nf[i]));
            } else {
                assert(fr.contains(nf[i]));
                assert(free0.contains(nf[j]));
            }
        }
    }
    assert forall|k: int| 0 <= k < nf.len() implies #[trigger] nf[k] < nodes1.len() by {
        if k >= free0.len() {
            assert(fr.contains(fr[k - free0.len()]));
        }
    }
    assert(proper_nodes(nodes1, nf) =~= proper_nodes(n0, free0).difference(proper_below(n0, free0, s)));
}

/// The path runs from the root through live nodes, one level per step, and
/// takes at each step the child that the history bit of that level names.
pub open spec fn follows(nodes: Seq<Node>, free: Seq<u32>, hist: u64, path: Seq<u32>) -> bool {
    &&& path.len() >= 1
    &&& path[0] == 0
    &&& forall|k: int| 0 <= k < path.len() ==> live(nodes, free, #[trigger] path[k] as int) && nodes[path[k] as int].depth == k
    &&& forall|k: int| 0 <= k < path.len() - 1 ==> #[trigger] path[k + 1] == nodes[path[k] as int].child[hist_bit(hist, k)]
}

/// Position of the deepest proper node of the path at or above position k
/// (the root counts as proper).
pub open spec fn last_proper(nodes: Seq<Node>, path: Seq<u32>, k: int) -> int
    decreases k,
{
    if k <= 0 {
        0
    } else if nodes[path[k] as int].proper {
        k
    } else {
        last_proper(nodes, path, k - 1)
    }
}

/// The descent goes on below position k: the node there is proper, or less
/// than `fringe_h` levels below the frontier.
pub open spec fn goes_on(nodes: Seq<Node>, path: Seq<u32>, k: int, fringe_h: u16) -> bool {
    nodes[path[k] as int].proper || k - last_proper(nodes, path, k) < fringe_h
}

/// How the node at position k of a descent's path relates to the arena
/// before the descent: a node that was live keeps all but the child the path
/// takes from it, which it gains if it had none; a node that was not live is
/// new, a fringe node under the previous one with no counts and no other
/// child.
pub open spec fn path_node_ok(o: Seq<Node>, of: Seq<u32>, now: Seq<Node>, hist: u64, path: Seq<u32>, k: int) -> bool {
    let i = path[k] as int;
    let b = hist_bit(hist, k);
    let last = k == path.len() - 1;
    if live(o, of, i) {
        &&& now[i] == (Node { child: now[i].child, ..o[i] })
        &&& last ==> now[i].child == o[i].child
        &&& !last ==> now[i].child[1 - b] == o[i].child[1 - b] && (o[i].child[b] == NONE || o[i].child[b]
            == now[i].child[b])
    } else {
        &&& k >= 1
        &&& now[i].n[0] == 0 && now[i].n[1] == 0
        &&& now[i].parent == path[k - 1] && now[i].depth == k && !now[i].proper
        &&& last ==> leaf(now[i])
        &&& !last ==> now[i].child[1 - b] == NONE
    }
}

/// The nodes that a descent created, from path position s down, were taken
/// from the end of the free list `of`, and once it was empty appended to the
/// arena, which had `o_len` nodes; `f` is what is left of the free list and
/// `now_len` the length of the arena.
pub open spec fn taken_in_order(o_len: int, of: Seq<u32>, f: Seq<u32>, now_len: int, path: Seq<u32>, s: int) -> bool {
    let taken = of.len() - f.len();
    &&& 1 <= s <= path.len()
    &&& 0 <= taken <= path.len() - s
    &&& forall|j: int|
        0 <= j < path.len() - s ==> #[trigger] path[s + j] == if j < taken {
            of[of.len() - 1 - j]
        } else {
            (o_len + j - taken) as u32
        }
    &&& now_len == o_len + (path.len() - s - taken)
    &&& path.len() - s > taken ==> f.len() == 0
}

/// Following an existing child keeps the record of what was created.
pub proof fn lemma_taken_existing(o_len: int, of: Seq<u32>, f: Seq<u32>, now_len: int, path: Seq<u32>, c: u32)
    requires
        taken_in_order(o_len, of, f, now_len, path, path.len() as int),
    ensures
        taken_in_order(o_len, of, f, now_len, path.push(c), path.len() + 1int),
{
}

/// Creating a node below the path extends the record of what was created.
pub proof fn lemma_taken_alloc(
    o_len: int,
    of: Seq<u32>,
    f1: Seq<u32>,
    len1: int,
    path: Seq<u32>,
    s: int,
    f3: Seq<u32>,
    len3: int,
    idx: u32,
)
    requires
        taken_in_order(o_len, of, f1, len1, path, s),
        f1.len() <= of.len(),
        f1 == of.subrange(0, f1.len() as int),
        f1.len() > 0 ==> idx == f1.last() && f3 == f1.drop_last() && len3 == len1,
        f1.len() == 0 ==> idx == len1 && f3 == f1 && len3 == len1 + 1,
    ensures
        taken_in_order(o_len, of, f3, len3, path.push(idx), s),
{
    let np = path.push(idx);
    let taken = of.len() - f1.len();
    let taken3 = of.len() - f3.len();
    if f1.len() > 0 {
        assert(path.len() - s == taken);
        assert(f1[f1.len() - 1] == of[f1.len() - 1]);
    }
    assert forall|j: int| 0 <= j < np.len() - s implies #[trigger] np[s + j] == if j < taken3 {
        of[of.len() - 1 - j]
    } else {
        (o_len + j - taken3) as u32
    } by {
        if j < path.len() - s {
            assert(np[s + j] == path[s + j]);
        }
    }
}

/// Number of nodes of the path that were live in the arena (nodes, free).
pub open spec fn count_live(nodes: Seq<Node>, free: Seq<u32>, path: Seq<u32>) -> int
    decreases path.len(),
{
    if path.len() == 0 {
        0
    } else {
        count_live(nodes, free, path.drop_last()) + if live(nodes, free, path.last() as int) {
            1int
        } else {
            0
        }
    }
}

/// Agreeing proper flags along two paths give the same frontier.
pub proof fn lemma_last_proper_frame(n1: Seq<Node>, p1: Seq<u32>, n2: Seq<Node>, p2: Seq<u32>, k: int)
    requires
        forall|j: int| 0 <= j <= k ==> #[trigger] n1[p1[j] as int].proper == n2[p2[j] as int].proper,
    ensures
        last_proper(n1, p1, k) == last_proper(n2, p2, k),
    decreases k,
{
    if k > 0 {
        assert(n1[p1[k] as int].proper == n2[p2[k] as int].proper);
        lemma_last_proper_frame(n1, p1, n2, p2, k - 1);
    }
}

/// The frontier lies at or above its position.
pub proof fn lemma_last_proper_range(nodes: Seq<Node>, path: Seq<u32>, k: int)
    requires
        k >= 0,
    ensures
        0 <= last_proper(nodes, path, k) <= k,
    decreases k,
{
    if k > 0 {
        lemma_last_proper_range(nodes, path, k - 1);
    }
}

/// The index that a draw from generator state `rng` picks in an arena of
/// `len` nodes.
pub open spec fn draw_of(rng: u64, len: int) -> int {
    xorshift_output(xorshift_state(rng)) as int % len
}

/// The arena of D2-CTW: nodes, the free list, and the memory budget.
pub struct Arena {
    nodes: Vec<Node>,
    free: Vec<u32>,
    proper_count: usize,
    max_nodes: usize,
    rng: u64,
    /// Bits counted so far: a bound on every counter.
    counted: Ghost<nat>,
}

impl Arena {
    /// The arena is a tree under the root, and `proper_count` counts its
    /// proper nodes.
    pub closed spec fn wf(&self) -> bool {
        &&& tree_ok(self.nodes@, self.free@)
        &&& self.nodes@[0].proper
        &&& proper_nodes(self.nodes@, self.free@).finite()
        &&& self.proper_count == proper_nodes(self.nodes@, self.free@).len()
        &&& self.max_nodes <= 0xFFFF_FFFF
        &&& (self.nodes@.len() <= self.max_nodes || self.nodes@.len() == 1)
        &&& forall|i: int| live(self.nodes@, self.free@, i) ==> #[trigger] self.nodes@[i].n[0] + self.nodes@[i].n[1] <= self.counted@
    }

    /// Bits counted so far.
    pub closed spec fn bits_counted(&self) -> nat {
        self.counted@
    }

    /// The nodes.
    pub closed spec fn arena(&self) -> Seq<Node> {
        self.nodes@
    }

    /// The free list.
    pub closed spec fn free_list(&self) -> Seq<u32> {
        self.free@
    }

    /// Number of proper nodes.
    pub closed spec fn spec_proper_count(&self) -> int {
        self.proper_count as int
    }

    /// The budget of nodes.
    pub closed spec fn spec_max_nodes(&self) -> int {
        self.max_nodes as int
    }

    /// The state of the sampling generator.
    pub closed spec fn spec_rng(&self) -> u64 {
        self.rng
    }

    /// An arena with the proper root alone and a budget of `max_nodes` nodes.
    pub fn new(max_nodes: usize) -> (a: Arena)
        requires
            max_nodes <= 0xFFFF_FFFF,
        ensures
            a.wf(),
            a.arena().len() == 1,
            is_fresh(a.arena()[0], NONE, 0, true),
            a.free_list().len() == 0,
            a.spec_proper_count() == 1,
            a.spec_max_nodes() == max_nodes,
            a.spec_rng() == 0x2545F4914F6CDD1D,
            a.bits_counted() == 0,
    {
        let a = Arena {
            nodes: vec![Node::fresh(NONE, 0, true)],
            free: Vec::new(),
            proper_count: 1,
            max_nodes,
            rng: 0x2545F4914F6CDD1D,
            counted: Ghost(0),
        };
        proof {
            assert(proper_nodes(a.nodes@, a.free@) =~= Set::empty().insert(0int));
        }
        a
    }

    /// xorshift64*: deterministic for a fixed seed.
    pub fn rng_next(&mut self) -> (r: u64)
        ensures
            final(self).spec_rng() == xorshift_state(old(self).spec_rng()),
            r == xorshift_output(xorshift_state(old(self).spec_rng())),
            final(self).arena() == old(self).arena(),
            final(self).free_list() == old(self).free_list(),
            final(self).spec_proper_count() == old(self).spec_proper_count(),
            final(self).spec_max_nodes() == old(self).spec_max_nodes(),
            final(self).bits_counted() == old(self).bits_counted(),
            old(self).wf() ==> final(self).wf(),
    {
        let mut x = self.rng;
        x ^= x >> 12;
        x ^= x << 25;
        x ^= x >> 27;
        self.rng = x;
        x.wrapping_mul(0x2545F4914F6CDD1D)
    }

    /// Number of nodes in the arena, free ones included.
    pub fn len(&self) -> (r: usize)
        ensures
            r == self.arena().len(),
    {
        self.nodes.len()
    }

    /// Number of free nodes.
    pub fn free_count(&self) -> (r: usize)
        ensures
            r == self.free_list().len(),
    {
        self.free.len()
    }

    /// Number of proper nodes.
    pub fn proper_count(&self) -> (r: usize)
        ensures
            r == self.spec_proper_count(),
    {
        self.proper_count
    }

    /// Node i.
    pub fn node(&self, i: u32) -> (nd: Node)
        requires
            i < self.arena().len(),
        ensures
            nd == self.arena()[i as int],
    {
        self.nodes[i as usize]
    }

    /// Allocates a node as child `b` of `parent`: from the free list when it
    /// has one, else appended while the arena is under budget. The new node is
    /// a fringe node one level below its parent. None: no room.
    pub fn alloc_child(&mut self, parent: u32, b: usize) -> (r: Option<u32>)
        requires
            old(self).wf(),
            live(old(self).arena(), old(self).free_list(), parent as int),
            b < 2,
            old(self).arena()[parent as int].child[b as int] == NONE,
            old(self).arena()[parent as int].depth < 0xFFFF,
        ensures
            final(self).wf(),
            final(self).spec_proper_count() == old(self).spec_proper_count(),
            final(self).spec_max_nodes() == old(self).spec_max_nodes(),
            final(self).spec_rng() == old(self).spec_rng(),
            final(self).bits_counted() == old(self).bits_counted(),
            r is None <==> (old(self).free_list().len() == 0 && old(self).arena().len() >= old(self).spec_max_nodes()),
            r is None ==> final(self).arena() == old(self).arena() && final(self).free_list() == old(self).free_list(),
            r matches Some(idx) ==> {
                let na = final(self).arena();
                let oa = old(self).arena();
                &&& idx != NONE
                &&& old(self).free_list().len() > 0 ==> idx == old(self).free_list().last() && final(self).free_list()
                    == old(self).free_list().drop_last() && na.len() == oa.len()
                &&& old(self).free_list().len() == 0 ==> idx == oa.len() && na.len() == oa.len() + 1
                    && final(self).free_list() == old(self).free_list()
                &&& is_fresh(na[idx as int], parent, (oa[parent as int].depth + 1) as u16, false)
                &&& na[parent as int] == (Node { child: na[parent as int].child, ..oa[parent as int] })
                &&& na[parent as int].child[b as int] == idx
                &&& na[parent as int].child[1 - b] == oa[parent as int].child[1 - b]
                &&& forall|i: int| 0 <= i < oa.len() && i != idx && i != parent ==> #[trigger] na[i] == oa[i]
            },
    {
        let ghost old_nodes = self.nodes@;
        let ghost old_free = self.free@;
        let depth = self.nodes[parent as usize].depth + 1;
        let idx = if let Some(f) = self.free.pop() {
            proof {
                assert(old_free.contains(f));
                assert(self.free@ == old_free.drop_last());
            }
            self.nodes.set(f as usize, Node::fresh(parent, depth, false));
            f
        } else {
            if self.nodes.len() >= self.max_nodes {
                return None;
            }
            self.nodes.push(Node::fresh(parent, depth, false));
            (self.nodes.len() - 1) as u32
        };
        let mut pn = self.nodes[parent as usize];
        pn.child[b] = idx;
        self.nodes.set(parent as usize, pn);
        proof {
            let na = self.nodes@;
            let nf = self.free@;
            assert(idx != 0);
            assert(forall|i: int| 0 <= i < nf.len() ==> nf[i] == old_free[i]);
            assert forall|i: int| live(na, nf, i) && i != idx implies live(old_nodes, old_free, i) by {
                if old_free.contains(i as u32) {
                    let k = choose|k: int| 0 <= k < old_free.len() && old_free[k] == i as u32;
                    if k < nf.len() {
                        assert(nf[k] == i as u32);
                    }
                }
            }
            assert forall|i: int| live(old_nodes, old_free, i) implies live(na, nf, i) by {
                if nf.contains(i as u32) {
                    let k = choose|k: int| 0 <= k < nf.len() && nf[k] == i as u32;
                    assert(old_free[k] == i as u32);
                }
            }
            assert(!live(old_nodes, old_free, idx as int)) by {
                if old_free.len() > 0 {
                    assert(old_free[old_free.len() - 1] == idx);
                }
            }
            assert(live(na, nf, idx as int)) by {
                if nf.contains(idx) {
                    let k = choose|k: int| 0 <= k < nf.len() && nf[k] == idx;
                    assert(old_free[k] == idx);
                    assert(old_free[old_free.len() - 1] == idx);
                }
            }
            // the tree
            assert forall|i: int, bb: int|
                live(na, nf, i) && 0 <= bb < 2 && #[trigger] na[i].child[bb] != NONE implies {
                let c = na[i].child[bb] as int;
                &&& live(na, nf, c)
                &&& na[c].parent == i
                &&& na[c].depth == na[i].depth + 1
            } by {
                if i == parent && bb == b {
                } else if i != idx {
                    assert(na[i].child[bb] == old_nodes[i].child[bb]);
                    let c = old_nodes[i].child[bb] as int;
                    assert(live(old_nodes, old_free, c));
                    assert(c != idx);
                    assert(na[c] == old_nodes[c] || c == parent);
                }
            }
            assert forall|i: int| live(na, nf, i) && i != 0 implies {
                let p = #[trigger] na[i].parent as int;
                &&& live(na, nf, p)
                &&& (na[p].child[0] == i || na[p].child[1] == i)
            } by {
                if i != idx {
                    assert(live(old_nodes, old_free, i));
                    let p = old_nodes[i].parent as int;
                    assert(p != idx);
                    if p == parent {
                        assert(old_nodes[p].child[b as int] == NONE);
                    }
                }
            }
            assert forall|i: int| live(na, nf, i) implies #[trigger] na[i].child[0] != na[i].child[1] || na[i].child[0] == NONE by {
                if i == parent {
                    let o = old_nodes[parent as int].child[1 - b];
                    if o != NONE {
                        assert(live(old_nodes, old_free, o as int));
                        assert(o != idx);
                    }
                    assert(na[i].child[b as int] == idx);
                    assert(na[i].child[1 - b] == o);
                } else if i == idx {
                    assert(na[i].child[0] == NONE);
                } else {
                    assert(live(old_nodes, old_free, i));
                    assert(na[i] == old_nodes[i]);
                    assert(old_nodes[i].child[0] != old_nodes[i].child[1] || old_nodes[i].child[0] == NONE);
                }
            }
            assert(forall|k: int| 0 <= k < nf.len() ==> #[trigger] nf[k] < na.len());
            assert(nf.no_duplicates());
            assert(proper_nodes(na, nf) =~= proper_nodes(old_nodes, old_free));
        }
        Some(idx)
    }

    /// Whether `a` is `b` or one of its ancestors.
    pub fn is_ancestor(&self, a: u32, b: u32) -> (r: bool)
        requires
            self.wf(),
            live(self.arena(), self.free_list(), b as int),
        ensures
            r == on_root_path(self.arena(), a as int, b as int, self.arena()[b as int].depth as nat),
    {
        let mut cur = b;
        loop
            invariant
                self.wf(),
                live(self.nodes@, self.free@, cur as int),
                on_root_path(self.nodes@, a as int, cur as int, self.nodes@[cur as int].depth as nat) == on_root_path(
                    self.nodes@,
                    a as int,
                    b as int,
                    self.nodes@[b as int].depth as nat,
                ),
            decreases self.nodes@[cur as int].depth,
        {
            if a == cur {
                return true;
            }
            if cur == 0 {
                return false;
            }
            let ghost p = self.nodes@[cur as int].parent as int;
            proof {
                let nodes = self.nodes@;
                assert(live(nodes, self.free@, p));
                if nodes[p].child[0] == cur {
                    assert(nodes[p].child[0] != NONE);
                } else {
                    assert(nodes[p].child[1] != NONE);
                }
                assert(nodes[cur as int].depth == nodes[p].depth + 1);
            }
            cur = self.nodes[cur as usize].parent;
        }
    }

    /// Counts symbol x at every node of the path.
    #[verifier::rlimit(40)]
    pub fn count(&mut self, path: &Vec<u32>, x: usize)
        requires
            old(self).wf(),
            x < 2,
            path@.no_duplicates(),
            forall|d: int| 0 <= d < path@.len() ==> live(old(self).arena(), old(self).free_list(), #[trigger] path@[d] as int),
            old(self).bits_counted() < u32::MAX,
        ensures
            final(self).wf(),
            final(self).bits_counted() == old(self).bits_counted() + 1,
            final(self).free_list() == old(self).free_list(),
            final(self).spec_proper_count() == old(self).spec_proper_count(),
            final(self).spec_max_nodes() == old(self).spec_max_nodes(),
            final(self).spec_rng() == old(self).spec_rng(),
            final(self).arena().len() == old(self).arena().len(),
            forall|i: int|
                0 <= i < old(self).arena().len() ==> if path@.contains(i as u32) {
                    counted_at(#[trigger] final(self).arena()[i], old(self).arena()[i], x as int)
                } else {
                    final(self).arena()[i] == old(self).arena()[i]
                },
    {
        let ghost n0 = self.nodes@;
        self.counted = Ghost(self.counted@ + 1);
        let mut j: usize = 0;
        while j < path.len()
            invariant
                j <= path@.len(),
                x < 2,
                path@.no_duplicates(),
                forall|d: int| 0 <= d < path@.len() ==> live(n0, self.free@, #[trigger] path@[d] as int),
                self.nodes@.len() == n0.len(),
                self.counted@ == old(self).counted@ + 1,
                self.free@ == old(self).free@,
                self.proper_count == old(self).proper_count,
                self.max_nodes == old(self).max_nodes,
                self.rng == old(self).rng,
                old(self).nodes@ == n0,
                old(self).wf(),
                old(self).counted@ < u32::MAX,
                forall|i: int|
                    0 <= i < n0.len() ==> if path@.subrange(0, j as int).contains(i as u32) {
                        counted_at(#[trigger] self.nodes@[i], n0[i], x as int)
                    } else {
                        self.nodes@[i] == n0[i]
                    },
            decreases path@.len() - j,
        {
            let i = path[j] as usize;
            let ghost prev = path@.subrange(0, j as int);
            let ghost sub = path@.subrange(0, j as int + 1);
            proof {
                assert(live(n0, self.free@, i as int));
                assert(!prev.contains(i as u32)) by {
                    if prev.contains(i as u32) {
                        let k = choose|k: int| 0 <= k < j && prev[k] == i as u32;
                        assert(path@[k] == path@[j as int]);
                    }
                }
                assert(self.nodes@[i as int] == n0[i as int]);
                assert(n0[i as int].n[0] + n0[i as int].n[1] <= old(self).counted@);
                assert(n0[i as int].n[x as int] < u32::MAX) by {
                    if x == 0 {
                    } else {
                        assert(x == 1);
                    }
                }
                assert forall|v: u32| #[trigger] sub.contains(v) <==> (prev.contains(v) || v == path@[j as int]) by {
                    if sub.contains(v) {
                        let k = choose|k: int| 0 <= k < j + 1 && sub[k] == v;
                        if k < j {
                            assert(prev[k] == v);
                        }
                    }
                    if prev.contains(v) {
                        let k = choose|k: int| 0 <= k < j && prev[k] == v;
                        assert(sub[k] == v);
                    }
                    if v == path@[j as int] {
                        assert(sub[j as int] == v);
                    }
                }
            }
            let ghost before = self.nodes@;
            let mut nd = self.nodes[i];
            nd.n[x] = nd.n[x] + 1;
            self.nodes.set(i, nd);
            proof {
                assert(counted_at(self.nodes@[i as int], n0[i as int], x as int)) by {
                    if x == 0 {
                    } else {
                        assert(x == 1);
                    }
                }
                assert forall|k: int| 0 <= k < n0.len() implies if sub.contains(k as u32) {
                    counted_at(#[trigger] self.nodes@[k], n0[k], x as int)
                } else {
                    self.nodes@[k] == n0[k]
                } by {
                    if k != i {
                        assert(self.nodes@[k] == before[k]);
                        assert(n0.len() <= 0xFFFF_FFFF);
                        assert(k as u32 != path@[j as int]);
                        assert(sub.contains(k as u32) == prev.contains(k as u32));
                    }
                }
            }
            j += 1;
        }
        proof {
            assert(path@.subrange(0, path@.len() as int) =~= path@);
            let na = self.nodes@;
            let nf = self.free@;
            assert forall|i: int| 0 <= i < n0.len() implies #[trigger] na[i].child == n0[i].child && na[i].parent == n0[i].parent
                && na[i].depth == n0[i].depth && na[i].proper == n0[i].proper && na[i].n[0] + na[i].n[1] <= n0[i].n[0] + n0[i].n[1] + 1 by {
                if path@.contains(i as u32) {
                    assert(counted_at(na[i], n0[i], x as int));
                    if x == 0 {
                    } else {
                        assert(x == 1);
                    }
                }
            }
            assert forall|i: int, bb: int|
                live(na, nf, i) && 0 <= bb < 2 && #[trigger] na[i].child[bb] != NONE implies {
                let c = na[i].child[bb] as int;
                &&& live(na, nf, c)
                &&& na[c].parent == i
                &&& na[c].depth == na[i].depth + 1
            } by {
                assert(na[i].child == n0[i].child);
                let c = n0[i].child[bb] as int;
                assert(live(n0, nf, c));
                assert(na[c].parent == n0[c].parent && na[c].depth == n0[c].depth);
            }
            assert forall|i: int| live(na, nf, i) && i != 0 implies {
                let p = #[trigger] na[i].parent as int;
                &&& live(na, nf, p)
                &&& (na[p].child[0] == i || na[p].child[1] == i)
            } by {
                assert(na[i].parent == n0[i].parent);
                let p = n0[i].parent as int;
                assert(live(n0, nf, p));
                assert(na[p].child == n0[p].child);
            }
            assert forall|i: int| live(na, nf, i) implies #[trigger] na[i].child[0] != na[i].child[1] || na[i].child[0] == NONE by {
                assert(na[i].child == n0[i].child);
            }
            assert(na[0].depth == n0[0].depth);
            assert(na[0].proper == n0[0].proper);
            assert(proper_nodes(na, nf) =~= proper_nodes(n0, nf)) by {
                assert forall|i: int| #[trigger] proper_nodes(na, nf).contains(i) <==> proper_nodes(n0, nf).contains(i) by {
                    if 0 <= i < na.len() {
                        assert(na[i].proper == n0[i].proper);
                    }
                }
            }
            assert forall|i: int| live(na, nf, i) implies #[trigger] na[i].n[0] + na[i].n[1] <= self.counted@ by {
                assert(n0[i].n[0] + n0[i].n[1] <= old(self).counted@);
            }
        }
    }

    /// Number of nodes strictly below u.
    #[verifier::rlimit(60)]
    pub fn subtree_size(&self, u: u32) -> (r: usize)
        requires
            self.wf(),
            live(self.arena(), self.free_list(), u as int),
        ensures
            r == desc_count(self.arena(), u as int, fuel_at(self.arena()[u as int].depth)),
            below(self.arena(), self.free_list(), u as int).finite(),
            r == below(self.arena(), self.free_list(), u as int).len(),
    {
        let ghost nodes = self.nodes@;
        let ghost free = self.free@;
        let mut n: usize = 0;
        let mut st: Vec<u32> = Vec::new();
        st.push(u);
        let ghost mut seen: Set<int> = Set::empty().insert(u as int);
        let ghost mut done: Set<int> = Set::empty();
        proof {
            lemma_small_set(seen, nodes.len() as int);
            reveal_with_fuel(pending, 2);
            assert(st@.len() == 1 && st@.last() == u);
            assert(st@.drop_last() =~= Seq::<u32>::empty());
            assert(pending(nodes, st@) == desc_count(nodes, u as int, fuel_at(nodes[u as int].depth)));
        }
        while st.len() > 0
            invariant
                self.wf(),
                nodes == self.nodes@,
                free == self.free@,
                live(nodes, free, u as int),
                seen.finite(),
                done.finite(),
                seen.contains(u as int),
                seen.len() == n + 1,
                done.subset_of(seen),
                forall|w: int| #[trigger] seen.contains(w) ==> live(nodes, free, w),
                forall|w: int| #[trigger] seen.contains(w) && w != u ==> done.contains(nodes[w].parent as int)
                    && nodes[w].depth > nodes[u as int].depth && strictly_below(nodes, w, u as int),
                forall|v: int, b: int|
                    done.contains(v) && 0 <= b < 2 && #[trigger] nodes[v].child[b] != NONE ==> seen.contains(
                        nodes[v].child[b] as int,
                    ),
                forall|x: u32| #[trigger] seen.contains(x as int) && !done.contains(x as int) <==> st@.contains(x),
                forall|k: int| 0 <= k < st@.len() ==> seen.contains(#[trigger] st@[k] as int),
                st@.no_duplicates(),
                n + pending(nodes, st@) == desc_count(nodes, u as int, fuel_at(nodes[u as int].depth)),
            decreases nodes.len() - done.len(),
        {
            let ghost st0 = st@;
            let v = st.pop().unwrap();
            proof {
                assert(st@ == st0.drop_last());
                assert(v == st0.last());
                assert(seen.contains(v as int) && !done.contains(v as int)) by {
                    assert(st0[st0.len() - 1] == v);
                    assert(st0.contains(v));
                }
                assert forall|x: u32| #[trigger] seen.contains(x as int) && !done.contains(x as int) && x != v implies st@.contains(x) by {
                    assert(st0.contains(x));
                    let k = choose|k: int| 0 <= k < st0.len() && st0[k] == x;
                    assert(k != st0.len() - 1);
                    assert(st@[k] == x);
                }
                assert(!st@.contains(v)) by {
                    if st@.contains(v) {
                        let k = choose|k: int| 0 <= k < st@.len() && st@[k] == v;
                        assert(st0[k] == st0[st0.len() - 1]);
                    }
                }
                lemma_small_set(done.insert(v as int), nodes.len() as int);
            }
            let nd = self.nodes[v as usize];
            let ghost seen0 = seen;
            let ghost stv = st@;
            let c0 = nd.child[0];
            if c0 != NONE {
                proof {
                    assert(nodes[v as int].child[0] != NONE);
                    assert(!seen.contains(c0 as int)) by {
                        if seen.contains(c0 as int) {
                            assert(nodes[c0 as int].depth == nodes[v as int].depth + 1);
                            assert(done.contains(nodes[c0 as int].parent as int));
                        }
                    }
                    lemma_below_child(nodes, c0 as int, u as int);
                    seen = seen.insert(c0 as int);
                    lemma_small_set(seen, nodes.len() as int);
                }
                n += 1;
                st.push(c0);
            }
            let c1 = nd.child[1];
            if c1 != NONE {
                proof {
                    assert(nodes[v as int].child[1] != NONE);
                    assert(c1 != c0);
                    assert(!seen.contains(c1 as int)) by {
                        if seen.contains(c1 as int) {
                            if c1 as int != c0 as int {
                                assert(seen0.contains(c1 as int));
                                assert(nodes[c1 as int].depth == nodes[v as int].depth + 1);
                                assert(done.contains(nodes[c1 as int].parent as int));
                            }
                        }
                    }
                    lemma_below_child(nodes, c1 as int, u as int);
                    seen = seen.insert(c1 as int);
                    lemma_small_set(seen, nodes.len() as int);
                }
                n += 1;
                st.push(c1);
            }
            proof {
                reveal_with_fuel(pending, 3);
                done = done.insert(v as int);
                let fv = fuel_at(nodes[v as int].depth);
                assert(fv >= 1);
                if c0 != NONE {
                    assert(fuel_at(nodes[c0 as int].depth) == fv - 1);
                }
                if c1 != NONE {
                    assert(fuel_at(nodes[c1 as int].depth) == fv - 1);
                }
                assert(st0.drop_last() == stv);
                assert(pending(nodes, st0) == pending(nodes, stv) + desc_count(nodes, v as int, fv));
                assert(desc_count(nodes, v as int, fv) == (if c0 != NONE {
                    1 + desc_count(nodes, c0 as int, (fv - 1) as nat)
                } else {
                    0
                }) + (if c1 != NONE {
                    1 + desc_count(nodes, c1 as int, (fv - 1) as nat)
                } else {
                    0
                }));
                if c0 != NONE && c1 != NONE {
                    assert(st@.drop_last() =~= stv.push(c0));
                    assert(stv.push(c0).drop_last() =~= stv);
                } else if c0 != NONE {
                    assert(st@.drop_last() =~= stv);
                } else if c1 != NONE {
                    assert(st@.drop_last() =~= stv);
                } else {
                    assert(st@ == stv);
                }
                assert forall|x: u32| #[trigger] seen.contains(x as int) && !done.contains(x as int) <==> st@.contains(x) by {
                    if st@.contains(x) {
                        let k = choose|k: int| 0 <= k < st@.len() && st@[k] == x;
                        if k < stv.len() {
                            assert(stv[k] == x);
                            assert(st0.contains(x)) by {
                                assert(st0[k] == x);
                            }
                            assert(x != v) by {
                                assert(!stv.contains(v));
                            }
                        }
                    }
                    if seen.contains(x as int) && !done.contains(x as int) {
                        if x == c0 && c0 != NONE {
                            if c1 != NONE {
                                assert(st@[st@.len() - 2] == c0);
                            } else {
                                assert(st@[st@.len() - 1] == c0);
                            }
                        } else if x == c1 && c1 != NONE {
                            assert(st@[st@.len() - 1] == c1);
                        } else {
                            assert(stv.contains(x));
                            let k = choose|k: int| 0 <= k < stv.len() && stv[k] == x;
                            assert(st@[k] == x);
                        }
                    }
                }
                assert forall|k: int| 0 <= k < st@.len() implies seen.contains(#[trigger] st@[k] as int) by {
                    if k < stv.len() {
                        assert(st@[k] == stv[k]);
                    }
                }
                assert(st@.no_duplicates()) by {
                    assert forall|i: int, j: int| 0 <= i < st@.len() && 0 <= j < st@.len() && i != j implies st@[i] != st@[j] by {
                        if i < stv.len() && j < stv.len() {
                            assert(stv[i] != stv[j]);
                        } else if i < stv.len() {
                            assert(seen0.contains(stv[i] as int));
                        } else if j < stv.len() {
                            assert(seen0.contains(stv[j] as int));
                        }
                    }
                }
            }
        }
        proof {
            let bl = below(nodes, free, u as int);
            assert forall|v: int, b: int|
                seen.contains(v) && 0 <= b < 2 && #[trigger] nodes[v].child[b] != NONE implies seen.contains(nodes[v].child[b] as int) by {
                if !done.contains(v) {
                    assert(st@.contains(v as u32));
                }
            }
            assert forall|w: int| #[trigger] seen.contains(w) <==> bl.contains(w) || w == u by {
                if bl.contains(w) {
                    let k = choose|k: nat| k >= 1 && #[trigger] anc(nodes, w, k) == u;
                    lemma_walk_complete(nodes, free, seen, u as int, w, k);
                }
            }
            lemma_not_below_self(nodes, free, u as int);
            assert(seen =~= bl.insert(u as int));
            lemma_small_set(bl, nodes.len() as int);
        }
        n
    }

    /// Makes every node below u proper: the frontier moves down to the fringe
    /// under it.
    #[verifier::rlimit(80)]
    pub fn mark_proper(&mut self, u: u32)
        requires
            old(self).wf(),
            live(old(self).arena(), old(self).free_list(), u as int),
        ensures
            final(self).wf(),
            final(self).free_list() == old(self).free_list(),
            final(self).spec_max_nodes() == old(self).spec_max_nodes(),
            final(self).spec_rng() == old(self).spec_rng(),
            final(self).bits_counted() == old(self).bits_counted(),
            final(self).arena().len() == old(self).arena().len(),
            forall|i: int|
                0 <= i < old(self).arena().len() ==> #[trigger] final(self).arena()[i] == (Node {
                    proper: old(self).arena()[i].proper || (live(old(self).arena(), old(self).free_list(), i)
                        && strictly_below(old(self).arena(), i, u as int)),
                    ..old(self).arena()[i]
                }),
            fringe_below(old(self).arena(), old(self).free_list(), u as int).finite(),
            final(self).spec_proper_count() == old(self).spec_proper_count() + fringe_below(
                old(self).arena(),
                old(self).free_list(),
                u as int,
            ).len(),
    {
        let ghost n0 = self.nodes@;
        let ghost free = self.free@;
        let mut st: Vec<u32> = Vec::new();
        st.push(u);
        let ghost mut seen: Set<int> = Set::empty().insert(u as int);
        let ghost mut done: Set<int> = Set::empty();
        proof {
            assert(self.nodes@ =~= n0);
            assert forall|x: u32| #[trigger] seen.contains(x as int) && !done.contains(x as int) <==> st@.contains(x) by {
                if st@.contains(x) {
                    assert(st@[0] == x);
                }
                if x as int == u as int {
                    assert(st@[0] == u);
                }
            }
            assert(proper_nodes(self.nodes@, free) =~= proper_nodes(n0, free));
        }
        while st.len() > 0
            invariant
                tree_ok(n0, free),
                free == self.free@,
                self.nodes@.len() == n0.len(),
                self.max_nodes == old(self).max_nodes,
                self.rng == old(self).rng,
                self.counted == old(self).counted,
                self.max_nodes <= 0xFFFF_FFFF,
                old(self).wf(),
                old(self).nodes@ == n0,
                old(self).free@ == free,
                live(n0, free, u as int),
                forall|i: int|
                    0 <= i < n0.len() ==> #[trigger] self.nodes@[i] == (Node {
                        proper: n0[i].proper || (seen.contains(i) && i != u),
                        ..n0[i]
                    }),
                proper_nodes(self.nodes@, free).finite(),
                self.proper_count == proper_nodes(self.nodes@, free).len(),
                seen.finite(),
                done.finite(),
                seen.contains(u as int),
                done.subset_of(seen),
                forall|w: int| #[trigger] seen.contains(w) ==> live(n0, free, w),
                forall|w: int| #[trigger] seen.contains(w) && w != u ==> done.contains(n0[w].parent as int)
                    && n0[w].depth > n0[u as int].depth && strictly_below(n0, w, u as int),
                forall|v: int, b: int|
                    done.contains(v) && 0 <= b < 2 && #[trigger] n0[v].child[b] != NONE ==> seen.contains(
                        n0[v].child[b] as int,
                    ),
                forall|x: u32| #[trigger] seen.contains(x as int) && !done.contains(x as int) <==> st@.contains(x),
                forall|k: int| 0 <= k < st@.len() ==> seen.contains(#[trigger] st@[k] as int),
                st@.no_duplicates(),
            decreases n0.len() - done.len(),
        {
            let ghost st0 = st@;
            let v = st.pop().unwrap();
            proof {
                assert(st@ == st0.drop_last());
                assert(v == st0.last());
                assert(seen.contains(v as int) && !done.contains(v as int)) by {
                    assert(st0[st0.len() - 1] == v);
                    assert(st0.contains(v));
                }
                assert forall|x: u32| #[trigger] seen.contains(x as int) && !done.contains(x as int) && x != v implies st@.contains(x) by {
                    assert(st0.contains(x));
                    let k = choose|k: int| 0 <= k < st0.len() && st0[k] == x;
                    assert(k != st0.len() - 1);
                    assert(st@[k] == x);
                }
                assert(!st@.contains(v)) by {
                    if st@.contains(v) {
                        let k = choose|k: int| 0 <= k < st@.len() && st@[k] == v;
                        assert(st0[k] == st0[st0.len() - 1]);
                    }
                }
                lemma_small_set(done.insert(v as int), n0.len() as int);
            }
            let ch = self.nodes[v as usize].child;
            proof {
                assert(ch == n0[v as int].child);
            }
            let ghost seen0 = seen;
            let ghost stv = st@;
            let mut b: usize = 0;
            while b < 2
                invariant
                    b <= 2,
                    tree_ok(n0, free),
                    free == self.free@,
                    self.nodes@.len() == n0.len(),
                    self.max_nodes == old(self).max_nodes,
                    self.rng == old(self).rng,
                    self.counted == old(self).counted,
                    live(n0, free, u as int),
                    live(n0, free, v as int),
                    ch == n0[v as int].child,
                    seen.contains(v as int),
                    !done.contains(v as int),
                    v as int == u || (done.contains(n0[v as int].parent as int) && strictly_below(n0, v as int, u as int)),
                    n0[v as int].depth >= n0[u as int].depth,
                    forall|i: int|
                        0 <= i < n0.len() ==> #[trigger] self.nodes@[i] == (Node {
                            proper: n0[i].proper || (seen.contains(i) && i != u),
                            ..n0[i]
                        }),
                    proper_nodes(self.nodes@, free).finite(),
                    self.proper_count == proper_nodes(self.nodes@, free).len(),
                    seen.finite(),
                    seen.contains(u as int),
                    done.subset_of(seen0),
                    seen0.subset_of(seen),
                    forall|w: int| #[trigger] seen.contains(w) ==> live(n0, free, w),
                    forall|w: int| #[trigger] seen.contains(w) && !seen0.contains(w) ==> w != u && ((b >= 1 && w
                        == n0[v as int].child[0] as int) || (b >= 2 && w == n0[v as int].child[1] as int)) && w != NONE
                        && n0[w].parent == v && n0[w].depth == n0[v as int].depth + 1,
                    forall|w: int| #[trigger] seen0.contains(w) && w != u ==> done.contains(n0[w].parent as int)
                        && n0[w].depth > n0[u as int].depth && strictly_below(n0, w, u as int),
                    forall|w: int| #[trigger] seen.contains(w) && w != u ==> strictly_below(n0, w, u as int),
                    forall|bb: int| 0 <= bb < b && #[trigger] n0[v as int].child[bb] != NONE ==> seen.contains(n0[v as int].child[bb] as int),
                    forall|x: u32| #[trigger] seen.contains(x as int) && !done.contains(x as int) && x != v <==> st@.contains(x),
                    forall|k: int| 0 <= k < st@.len() ==> seen.contains(#[trigger] st@[k] as int),
                    st@.no_duplicates(),
                    !st@.contains(v),
                decreases 2 - b,
            {
                let c = ch[b];
                if c != NONE {
                    proof {
                        assert(n0[v as int].child[b as int] != NONE);
                        assert(live(n0, free, c as int));
                        assert(n0[c as int].parent == v);
                        assert(!seen.contains(c as int)) by {
                            if seen.contains(c as int) {
                                if seen0.contains(c as int) {
                                    assert(c as int != u);
                                    assert(done.contains(n0[c as int].parent as int));
                                } else {
                                    assert(b == 1);
                                    assert(n0[v as int].child[0] == c);
                                }
                            }
                        }
                        assert(c as int != u) by {
                            lemma_anc_depth(n0, free, v as int, 0);
                        }
                        assert(strictly_below(n0, c as int, u as int)) by {
                            reveal_with_fuel(anc, 2);
                            assert(anc(n0, c as int, 1) == v);
                            if v as int != u {
                                let k = choose|k: nat| k >= 1 && #[trigger] anc(n0, v as int, k) == u;
                                assert(anc(n0, c as int, k + 1) == anc(n0, v as int, k));
                            }
                        }
                    }
                    let ghost before = self.nodes@;
                    let mut nd = self.nodes[c as usize];
                    if !nd.proper {
                        nd.proper = true;
                        proof {
                            lemma_small_set(proper_nodes(before, free).insert(c as int), n0.len() as int);
                        }
                        self.nodes.set(c as usize, nd);
                        self.proper_count = self.proper_count + 1;
                        proof {
                            assert(proper_nodes(self.nodes@, free) =~= proper_nodes(before, free).insert(c as int));
                        }
                    }
                    let ghost stb = st@;
                    proof {
                        assert(!done.contains(c as int));
                        assert(c != v);
                        lemma_push_pending(stb, c, seen, done, v);
                        seen = seen.insert(c as int);
                        assert(proper_nodes(self.nodes@, free).finite());
                    }
                    st.push(c);
                }
                b += 1;
            }
            proof {
                done = done.insert(v as int);
            }
        }
        proof {
            let na = self.nodes@;
            assert forall|v: int, b: int|
                seen.contains(v) && 0 <= b < 2 && #[trigger] n0[v].child[b] != NONE implies seen.contains(n0[v].child[b] as int) by {
                if !done.contains(v) {
                    assert(st@.contains(v as u32));
                }
            }
            assert forall|i: int| 0 <= i < n0.len() implies #[trigger] na[i] == (Node {
                proper: n0[i].proper || (live(n0, free, i) && strictly_below(n0, i, u as int)),
                ..n0[i]
            }) by {
                if live(n0, free, i) && strictly_below(n0, i, u as int) {
                    let k = choose|k: nat| k >= 1 && #[trigger] anc(n0, i, k) == u;
                    lemma_walk_complete(n0, free, seen, u as int, i, k);
                }
                if i == u {
                    lemma_not_below_self(n0, free, u as int);
                }
            }
            assert(tree_ok(na, free)) by {
                assert forall|i: int, bb: int|
                    live(na, free, i) && 0 <= bb < 2 && #[trigger] na[i].child[bb] != NONE implies {
                    let c = na[i].child[bb] as int;
                    &&& live(na, free, c)
                    &&& na[c].parent == i
                    &&& na[c].depth == na[i].depth + 1
                } by {
                    assert(na[i].child == n0[i].child);
                    let c = n0[i].child[bb] as int;
                    assert(live(n0, free, c));
                    assert(na[c].parent == n0[c].parent);
                }
                assert forall|i: int| live(na, free, i) && i != 0 implies {
                    let p = #[trigger] na[i].parent as int;
                    &&& live(na, free, p)
                    &&& (na[p].child[0] == i || na[p].child[1] == i)
                } by {
                    let p = n0[i].parent as int;
                    assert(live(n0, free, p));
                    assert(na[p].child == n0[p].child);
                }
                assert forall|i: int| live(na, free, i) implies #[trigger] na[i].child[0] != na[i].child[1] || na[i].child[0] == NONE by {
                    assert(na[i].child == n0[i].child);
                }
                assert(na[0].parent == n0[0].parent);
            }
            assert forall|i: int| live(na, free, i) implies #[trigger] na[i].n[0] + na[i].n[1] <= self.counted@ by {
                assert(n0[i].n[0] + n0[i].n[1] <= old(self).counted@);
            }
            let p0 = proper_nodes(n0, free);
            let fb = fringe_below(n0, free, u as int);
            lemma_small_set(fb, n0.len() as int);
            assert(proper_nodes(na, free) =~= p0 + fb);
            assert(p0.disjoint(fb));
            vstd::set_lib::lemma_set_disjoint_lens(p0, fb);
        }
    }

    /// Frees every node below s; s stays, as a leaf. Returns the number of
    /// nodes freed.
    #[verifier::rlimit(100)]
    pub fn prune_subtree(&mut self, s: u32) -> (r: usize)
        requires
            old(self).wf(),
            live(old(self).arena(), old(self).free_list(), s as int),
        ensures
            final(self).wf(),
            r == desc_count(old(self).arena(), s as int, fuel_at(old(self).arena()[s as int].depth)),
            below(old(self).arena(), old(self).free_list(), s as int).finite(),
            r == below(old(self).arena(), old(self).free_list(), s as int).len(),
            final(self).arena() == old(self).arena().update(
                s as int,
                Node { child: [NONE, NONE], ..old(self).arena()[s as int] },
            ),
            final(self).free_list().len() == old(self).free_list().len() + r,
            final(self).free_list().subrange(0, old(self).free_list().len() as int) == old(self).free_list(),
            final(self).free_list().subrange(old(self).free_list().len() as int, final(self).free_list().len() as int)
                == prune_order(old(self).arena(), s as int),
            forall|x: u32|
                #[trigger] final(self).free_list().subrange(
                    old(self).free_list().len() as int,
                    final(self).free_list().len() as int,
                ).contains(x) <==> below(old(self).arena(), old(self).free_list(), s as int).contains(x as int),
            final(self).spec_proper_count() == old(self).spec_proper_count() - proper_below(
                old(self).arena(),
                old(self).free_list(),
                s as int,
            ).len(),
            final(self).spec_max_nodes() == old(self).spec_max_nodes(),
            final(self).spec_rng() == old(self).spec_rng(),
            final(self).bits_counted() == old(self).bits_counted(),
    {
        let ghost n0 = self.nodes@;
        let ghost free0 = self.free@;
        let ghost fs = fuel_at(n0[s as int].depth);
        let mut freed: usize = 0;
        let mut st: Vec<u32> = Vec::new();
        let mut sn = self.nodes[s as usize];
        let c0 = sn.child[0];
        let c1 = sn.child[1];
        sn.child = [NONE, NONE];
        self.nodes.set(s as usize, sn);
        let ghost nodes1 = self.nodes@;
        let ghost mut seen: Set<int> = Set::empty().insert(s as int);
        let ghost mut done: Set<int> = Set::empty().insert(s as int);
        let ghost mut fr: Seq<u32> = Seq::empty();
        proof {
            assert(nodes1 == n0.update(s as int, Node { child: [NONE, NONE], ..n0[s as int] }));
            assert(self.free@ =~= free0 + fr);
            assert(proper_nodes(nodes1, free0) =~= proper_nodes(n0, free0));
        }
        if c0 != NONE {
            proof {
                assert(n0[s as int].child[0] != NONE);
                lemma_below_child(n0, c0 as int, s as int);
                seen = seen.insert(c0 as int);
            }
            st.push(c0);
        }
        if c1 != NONE {
            proof {
                assert(n0[s as int].child[1] != NONE);
                assert(c1 != c0);
                lemma_below_child(n0, c1 as int, s as int);
                seen = seen.insert(c1 as int);
            }
            st.push(c1);
        }
        proof {
            lemma_small_set(seen, n0.len() as int);
            reveal_with_fuel(pending, 3);
            assert(fs >= 1);
            if c0 != NONE {
                assert(fuel_at(n0[c0 as int].depth) == fs - 1);
            }
            if c1 != NONE {
                assert(fuel_at(n0[c1 as int].depth) == fs - 1);
            }
            if c0 != NONE && c1 != NONE {
                assert(st@.drop_last() =~= seq![c0]);
                assert(seq![c0].drop_last() =~= Seq::<u32>::empty());
            } else if c0 != NONE || c1 != NONE {
                assert(st@.drop_last() =~= Seq::<u32>::empty());
            }
            assert(freed + st@.len() + pending(n0, st@) == desc_count(n0, s as int, fs));
            reveal_with_fuel(walk_stack, 3);
            assert(fr + walk_stack(n0, st@) =~= prune_order(n0, s as int));
            assert forall|x: u32| #[trigger] seen.contains(x as int) && !done.contains(x as int) <==> st@.contains(x) by {
                if st@.contains(x) {
                    let k = choose|k: int| 0 <= k < st@.len() && st@[k] == x;
                }
                if seen.contains(x as int) && !done.contains(x as int) {
                    if c0 != NONE && x == c0 {
                        assert(st@[0] == x);
                    } else {
                        assert(st@[st@.len() - 1] == x);
                    }
                }
            }
            assert(done.len() == 1);
        }
        while st.len() > 0
            invariant
                tree_ok(n0, free0),
                old(self).wf(),
                old(self).nodes@ == n0,
                old(self).free@ == free0,
                live(n0, free0, s as int),
                fs == fuel_at(n0[s as int].depth),
                nodes1 == n0.update(s as int, Node { child: [NONE, NONE], ..n0[s as int] }),
                self.nodes@ == nodes1,
                self.free@ == free0 + fr,
                forall|x: u32| #[trigger] fr.contains(x) <==> done.contains(x as int) && x != s,
                fr.len() == freed,
                fr.no_duplicates(),
                fr + walk_stack(n0, st@) == prune_order(n0, s as int),
                self.max_nodes == old(self).max_nodes,
                self.rng == old(self).rng,
                self.counted == old(self).counted,
                proper_nodes(self.nodes@, self.free@).finite(),
                self.proper_count == proper_nodes(self.nodes@, self.free@).len(),
                seen.finite(),
                done.finite(),
                done.len() == freed + 1,
                seen.contains(s as int),
                done.contains(s as int),
                done.subset_of(seen),
                forall|w: int| #[trigger] seen.contains(w) ==> live(n0, free0, w),
                forall|w: int| #[trigger] seen.contains(w) && w != s ==> done.contains(n0[w].parent as int)
                    && strictly_below(n0, w, s as int),
                forall|v: int, b: int|
                    done.contains(v) && 0 <= b < 2 && #[trigger] n0[v].child[b] != NONE ==> seen.contains(
                        n0[v].child[b] as int,
                    ),
                forall|x: u32| #[trigger] seen.contains(x as int) && !done.contains(x as int) <==> st@.contains(x),
                forall|k: int| 0 <= k < st@.len() ==> seen.contains(#[trigger] st@[k] as int),
                st@.no_duplicates(),
                freed + st@.len() + pending(n0, st@) == desc_count(n0, s as int, fs),
            decreases n0.len() - done.len(),
        {
            let ghost st0 = st@;
            let v = st.pop().unwrap();
            proof {
                assert(st@ == st0.drop_last());
                assert(v == st0.last());
                assert(seen.contains(v as int) && !done.contains(v as int)) by {
                    assert(st0[st0.len() - 1] == v);
                    assert(st0.contains(v));
                }
                assert forall|x: u32| #[trigger] seen.contains(x as int) && !done.contains(x as int) && x != v implies st@.contains(x) by {
                    assert(st0.contains(x));
                    let k = choose|k: int| 0 <= k < st0.len() && st0[k] == x;
                    assert(k != st0.len() - 1);
                    assert(st@[k] == x);
                }
                assert(!st@.contains(v)) by {
                    if st@.contains(v) {
                        let k = choose|k: int| 0 <= k < st@.len() && st@[k] == v;
                        assert(st0[k] == st0[st0.len() - 1]);
                    }
                }
                lemma_small_set(done.insert(v as int), n0.len() as int);
                assert(v != s);
                assert(nodes1[v as int] == n0[v as int]);
            }
            let nd = self.nodes[v as usize];
            let ghost seen0 = seen;
            let ghost stv = st@;
            let c0 = nd.child[0];
            if c0 != NONE {
                proof {
                    assert(n0[v as int].child[0] != NONE);
                    assert(!seen.contains(c0 as int)) by {
                        if seen.contains(c0 as int) {
                            assert(n0[c0 as int].parent == v);
                            assert(done.contains(n0[c0 as int].parent as int));
                        }
                    }
                    lemma_below_child(n0, c0 as int, s as int);
                    seen = seen.insert(c0 as int);
                }
                st.push(c0);
            }
            let c1 = nd.child[1];
            if c1 != NONE {
                proof {
                    assert(n0[v as int].child[1] != NONE);
                    assert(c1 != c0);
                    assert(!seen.contains(c1 as int)) by {
                        if seen.contains(c1 as int) {
                            if c1 as int != c0 as int {
                                assert(seen0.contains(c1 as int));
                                assert(n0[c1 as int].parent == v);
                                assert(done.contains(n0[c1 as int].parent as int));
                            }
                        }
                    }
                    lemma_below_child(n0, c1 as int, s as int);
                    seen = seen.insert(c1 as int);
                }
                st.push(c1);
            }
            let ghost pn0 = proper_nodes(self.nodes@, self.free@);
            proof {
                assert(live(nodes1, free0 + fr, v as int)) by {
                    if (free0 + fr).contains(v) {
                        let k = choose|k: int| 0 <= k < (free0 + fr).len() && (free0 + fr)[k] == v;
                        if k < free0.len() {
                            assert(free0[k] == v);
                        } else {
                            assert(fr[k - free0.len()] == v);
                            assert(fr.contains(v));
                        }
                    }
                }
            }
            if self.nodes[v as usize].proper {
                proof {
                    assert(pn0.contains(v as int));
                    assert(pn0.len() >= 1) by {
                        vstd::set_lib::lemma_len_subset(Set::empty().insert(v as int), pn0);
                    }
                }
                self.proper_count = self.proper_count - 1;
            }
            self.free.push(v);
            freed = freed + 1;
            proof {
                let fr0 = fr;
                fr = fr.push(v);
                assert(self.free@ =~= free0 + fr);
                let pn1 = proper_nodes(self.nodes@, self.free@);
                assert forall|x: u32| #[trigger] (free0 + fr).contains(x) <==> (free0 + fr0).contains(x) || x == v by {
                    if (free0 + fr).contains(x) {
                        let k = choose|k: int| 0 <= k < (free0 + fr).len() && (free0 + fr)[k] == x;
                        if k < (free0 + fr0).len() {
                            assert((free0 + fr0)[k] == x);
                        }
                    }
                    if (free0 + fr0).contains(x) {
                        let k = choose|k: int| 0 <= k < (free0 + fr0).len() && (free0 + fr0)[k] == x;
                        assert((free0 + fr)[k] == x);
                    }
                    if x == v {
                        assert((free0 + fr)[(free0 + fr).len() - 1] == x);
                    }
                }
                if nodes1[v as int].proper {
                    assert(pn1 =~= pn0.remove(v as int));
                } else {
                    assert(pn1 =~= pn0);
                }
                assert forall|x: u32| #[trigger] fr.contains(x) <==> fr0.contains(x) || x == v by {
                    if fr.contains(x) {
                        let k = choose|k: int| 0 <= k < fr.len() && fr[k] == x;
                        if k < fr0.len() {
                            assert(fr0[k] == x);
                        }
                    }
                    if fr0.contains(x) {
                        let k = choose|k: int| 0 <= k < fr0.len() && fr0[k] == x;
                        assert(fr[k] == x);
                    }
                    if x == v {
                        assert(fr[fr.len() - 1] == x);
                    }
                }
                assert(!fr0.contains(v));
                assert(fr.no_duplicates()) by {
                    assert forall|i: int, j: int| 0 <= i < fr.len() && 0 <= j < fr.len() && i != j implies fr[i] != fr[j] by {
                        if i < fr0.len() && j < fr0.len() {
                            assert(fr0[i] != fr0[j]);
                        } else if i < fr0.len() {
                            assert(fr0.contains(fr0[i]));
                        } else if j < fr0.len() {
                            assert(fr0.contains(fr0[j]));
                        }
                    }
                }
                reveal_with_fuel(pending, 3);
                done = done.insert(v as int);
                let fv = fuel_at(n0[v as int].depth);
                assert(fv >= 1);
                if c0 != NONE {
                    assert(fuel_at(n0[c0 as int].depth) == fv - 1);
                }
                if c1 != NONE {
                    assert(fuel_at(n0[c1 as int].depth) == fv - 1);
                }
                assert(st0.drop_last() == stv);
                assert(pending(n0, st0) == pending(n0, stv) + desc_count(n0, v as int, fv));
                if c0 != NONE && c1 != NONE {
                    assert(st@.drop_last() =~= stv.push(c0));
                    assert(stv.push(c0).drop_last() =~= stv);
                } else if c0 != NONE {
                    assert(st@.drop_last() =~= stv);
                } else if c1 != NONE {
                    assert(st@.drop_last() =~= stv);
                } else {
                    assert(st@ == stv);
                }
                {
                    let e = Seq::<u32>::empty();
                    reveal_with_fuel(walk_stack, 3);
                    let w1 = if c1 != NONE { walk_order(n0, c1 as int, (fv - 1) as nat) } else { e };
                    let w0 = if c0 != NONE { walk_order(n0, c0 as int, (fv - 1) as nat) } else { e };
                    assert(walk_stack(n0, st0) == walk_order(n0, v as int, fv) + walk_stack(n0, stv));
                    assert(walk_order(n0, v as int, fv) == seq![v] + w1 + w0);
                    if c0 != NONE && c1 != NONE {
                        assert(walk_stack(n0, st@) == w1 + walk_stack(n0, stv.push(c0)));
                        assert(walk_stack(n0, stv.push(c0)) == w0 + walk_stack(n0, stv));
                    } else if c0 != NONE {
                        assert(walk_stack(n0, st@) == w0 + walk_stack(n0, stv));
                        assert(w1 =~= e);
                    } else if c1 != NONE {
                        assert(walk_stack(n0, st@) == w1 + walk_stack(n0, stv));
                        assert(w0 =~= e);
                    } else {
                        assert(w1 =~= e && w0 =~= e);
                    }
                    assert(fr + walk_stack(n0, st@) =~= fr0 + walk_stack(n0, st0));
                }
                assert forall|x: u32| #[trigger] seen.contains(x as int) && !done.contains(x as int) <==> st@.contains(x) by {
                    if st@.contains(x) {
                        let k = choose|k: int| 0 <= k < st@.len() && st@[k] == x;
                        if k < stv.len() {
                            assert(stv[k] == x);
                            assert(st0.contains(x)) by {
                                assert(st0[k] == x);
                            }
                            assert(x != v) by {
                                assert(!stv.contains(v));
                            }
                        }
                    }
                    if seen.contains(x as int) && !done.contains(x as int) {
                        if x == c0 && c0 != NONE {
                            if c1 != NONE {
                                assert(st@[st@.len() - 2] == c0);
                            } else {
                                assert(st@[st@.len() - 1] == c0);
                            }
                        } else if x == c1 && c1 != NONE {
                            assert(st@[st@.len() - 1] == c1);
                        } else {
                            assert(stv.contains(x));
                            let k = choose|k: int| 0 <= k < stv.len() && stv[k] == x;
                            assert(st@[k] == x);
                        }
                    }
                }
                assert forall|k: int| 0 <= k < st@.len() implies seen.contains(#[trigger] st@[k] as int) by {
                    if k < stv.len() {
                        assert(st@[k] == stv[k]);
                    }
                }
                assert(st@.no_duplicates()) by {
                    assert forall|i: int, j: int| 0 <= i < st@.len() && 0 <= j < st@.len() && i != j implies st@[i] != st@[j] by {
                        if i < stv.len() && j < stv.len() {
                            assert(stv[i] != stv[j]);
                        } else if i < stv.len() {
                            assert(seen0.contains(stv[i] as int));
                        } else if j < stv.len() {
                            assert(seen0.contains(stv[j] as int));
                        }
                    }
                }
            }
        }
        proof {
            assert forall|w: int| #[trigger] seen.contains(w) implies done.contains(w) by {
                if !done.contains(w) {
                    assert(st@.contains(w as u32));
                }
            }
            lemma_prune_end(n0, free0, nodes1, fr, seen, done, s as int);
            let fi = fr.map_values(|x: u32| x as int);
            assert(fi.no_duplicates()) by {
                assert forall|i: int, j: int| 0 <= i < fi.len() && 0 <= j < fi.len() && i != j implies fi[i] != fi[j] by {
                    assert(fr[i] != fr[j]);
                }
            }
            assert(fi.to_set() =~= below(n0, free0, s as int)) by {
                assert forall|w: int| #[trigger] fi.to_set().contains(w) <==> below(n0, free0, s as int).contains(w) by {
                    if fi.to_set().contains(w) {
                        assert(fi.contains(w));
                        let k = choose|k: int| 0 <= k < fi.len() && fi[k] == w;
                        assert(fr.contains(fr[k]));
                    }
                    if below(n0, free0, s as int).contains(w) {
                        assert(0 <= w < n0.len());
                        assert(fr.contains(w as u32));
                        let k = choose|k: int| 0 <= k < fr.len() && fr[k] == w as u32;
                        assert(fi[k] == w);
                        assert(fi.contains(w));
                    }
                }
            }
            fi.unique_seq_to_set();
            let nf = self.free@;
            assert(nf.subrange(0, free0.len() as int) =~= free0);
            assert(nf.subrange(free0.len() as int, nf.len() as int) =~= fr);
            assert(fr + Seq::<u32>::empty() =~= fr);
            let p0 = proper_nodes(n0, free0);
            let pb = proper_below(n0, free0, s as int);
            assert(pb.subset_of(p0));
            vstd::set_lib::lemma_len_subset(pb, p0);
            vstd::set_lib::lemma_set_difference_len(p0, pb);
            assert(p0.intersect(pb) =~= pb);
            assert forall|i: int| live(self.nodes@, nf, i) implies #[trigger] self.nodes@[i].n[0] + self.nodes@[i].n[1] <= self.counted@ by {
                assert(live(n0, free0, i));
                assert(n0[i].n[0] + n0[i].n[1] <= old(self).counted@);
            }
        }
        freed
    }

    /// Whether node i is in the tree: in the arena and not on the free list.
    pub fn is_live(&self, i: u32) -> (r: bool)
        ensures
            r == live(self.arena(), self.free_list(), i as int),
    {
        if i as usize >= self.nodes.len() {
            return false;
        }
        let mut k: usize = 0;
        while k < self.free.len()
            invariant
                k <= self.free@.len(),
                forall|j: int| 0 <= j < k ==> self.free@[j] != i,
            decreases self.free@.len() - k,
        {
            if self.free[k] == i {
                return false;
            }
            k += 1;
        }
        true
    }

    /// One draw of the sampling generator, as an index into the arena.
    fn draw_index(&mut self) -> (r: u32)
        requires
            old(self).wf(),
        ensures
            final(self).wf(),
            final(self).spec_rng() == xorshift_state(old(self).spec_rng()),
            r as int == draw_of(old(self).spec_rng(), old(self).arena().len() as int),
            final(self).arena() == old(self).arena(),
            final(self).free_list() == old(self).free_list(),
            final(self).spec_proper_count() == old(self).spec_proper_count(),
            final(self).spec_max_nodes() == old(self).spec_max_nodes(),
            final(self).bits_counted() == old(self).bits_counted(),
    {
        let len = self.nodes.len() as u64;
        let x = self.rng_next();
        (x % len) as u32
    }

    /// One draw towards making room (pruning to free memory): the drawn node,
    /// if it may be pruned: not the root, live, a proper inner node, and not
    /// on the path from `protect` up to the root.
    pub fn prune_candidate(&mut self, protect: u32) -> (r: Option<u32>)
        requires
            old(self).wf(),
            live(old(self).arena(), old(self).free_list(), protect as int),
        ensures
            final(self).wf(),
            final(self).spec_rng() == xorshift_state(old(self).spec_rng()),
            final(self).arena() == old(self).arena(),
            final(self).free_list() == old(self).free_list(),
            final(self).spec_proper_count() == old(self).spec_proper_count(),
            final(self).spec_max_nodes() == old(self).spec_max_nodes(),
            final(self).bits_counted() == old(self).bits_counted(),
            ({
                let a = old(self).arena();
                let idx = draw_of(old(self).spec_rng(), a.len() as int);
                r == if idx != 0 && live(a, old(self).free_list(), idx) && a[idx].proper && !leaf(a[idx]) && !on_root_path(
                    a,
                    idx,
                    protect as int,
                    a[protect as int].depth as nat,
                ) {
                    Some(idx as u32)
                } else {
                    None::<u32>
                }
            }),
    {
        let idx = self.draw_index();
        if idx == 0 || !self.is_live(idx) {
            return None;
        }
        let nd = self.nodes[idx as usize];
        if !nd.proper || nd.is_leaf() || self.is_ancestor(idx, protect) {
            return None;
        }
        Some(idx)
    }

    /// One draw towards expanding frontier f when `need` more proper nodes
    /// do not fit: the drawn node with the number of nodes below it, if it
    /// may be pruned for f (not the root, live, proper, not a leaf, not on
    /// the path from f up to the root) and pruning it makes room enough.
    pub fn expand_candidate(&mut self, f: u32, need: usize) -> (r: Option<(u32, usize)>)
        requires
            old(self).wf(),
            live(old(self).arena(), old(self).free_list(), f as int),
        ensures
            final(self).wf(),
            final(self).spec_rng() == xorshift_state(old(self).spec_rng()),
            final(self).arena() == old(self).arena(),
            final(self).free_list() == old(self).free_list(),
            final(self).spec_proper_count() == old(self).spec_proper_count(),
            final(self).spec_max_nodes() == old(self).spec_max_nodes(),
            final(self).bits_counted() == old(self).bits_counted(),
            ({
                let a = old(self).arena();
                let idx = draw_of(old(self).spec_rng(), a.len() as int);
                let frees = desc_count(a, idx, fuel_at(a[idx].depth));
                r == if idx != 0 && live(a, old(self).free_list(), idx) && a[idx].proper && !leaf(a[idx])
                    && !on_root_path(a, idx, f as int, a[f as int].depth as nat)
                    && old(self).spec_proper_count() + need <= old(self).spec_max_nodes() + frees {
                    Some((idx as u32, frees as usize))
                } else {
                    None::<(u32, usize)>
                }
            }),
    {
        let idx = self.draw_index();
        if idx == 0 || !self.is_live(idx) {
            return None;
        }
        let nd = self.nodes[idx as usize];
        if !nd.proper || nd.is_leaf() || self.is_ancestor(idx, f) {
            return None;
        }
        let frees = self.subtree_size(idx);
        if (self.proper_count as u128) + (need as u128) > (self.max_nodes as u128) + (frees as u128) {
            return None;
        }
        Some((idx, frees))
    }

    /// Expands frontier f when its subtree fits the budget: returns whether
    /// it did, and the number of nodes below f. With nothing below f, or no
    /// room for it, the arena is left as it was.
    pub fn expand_within_budget(&mut self, f: u32) -> (r: (bool, usize))
        requires
            old(self).wf(),
            live(old(self).arena(), old(self).free_list(), f as int),
        ensures
            final(self).wf(),
            r.1 == desc_count(old(self).arena(), f as int, fuel_at(old(self).arena()[f as int].depth)),
            r.0 == (r.1 > 0 && old(self).spec_proper_count() + r.1 <= old(self).spec_max_nodes()),
            final(self).free_list() == old(self).free_list(),
            final(self).spec_max_nodes() == old(self).spec_max_nodes(),
            final(self).spec_rng() == old(self).spec_rng(),
            final(self).bits_counted() == old(self).bits_counted(),
            !r.0 ==> final(self).arena() == old(self).arena() && final(self).spec_proper_count()
                == old(self).spec_proper_count(),
            r.0 ==> final(self).spec_proper_count() == old(self).spec_proper_count() + fringe_below(
                old(self).arena(),
                old(self).free_list(),
                f as int,
            ).len(),
            r.0 ==> final(self).spec_proper_count() <= final(self).spec_max_nodes(),
            r.0 ==> final(self).arena().len() == old(self).arena().len() && forall|i: int|
                0 <= i < old(self).arena().len() ==> #[trigger] final(self).arena()[i] == (Node {
                    proper: old(self).arena()[i].proper || (live(old(self).arena(), old(self).free_list(), i)
                        && strictly_below(old(self).arena(), i, f as int)),
                    ..old(self).arena()[i]
                }),
    {
        let need = self.subtree_size(f);
        if need == 0 {
            return (false, need);
        }
        if (self.proper_count as u128) + (need as u128) <= self.max_nodes as u128 {
            let ghost a0 = self.nodes@;
            let ghost f0 = self.free@;
            self.mark_proper(f);
            proof {
                let fb = fringe_below(a0, f0, f as int);
                let bl = below(a0, f0, f as int);
                assert(fb.subset_of(bl));
                vstd::set_lib::lemma_len_subset(fb, bl);
            }
            return (true, need);
        }
        (false, need)
    }

    /// The descent of one bit: from the root along the history bits, through
    /// the proper nodes and at most `fringe_h` levels of fringe below the
    /// frontier, creating the fringe nodes that are missing, down to at most
    /// `max_depth` levels. Returns whether it ended (false: a node was missing
    /// and the arena is full), the position of the frontier, the deepest
    /// proper node of the path, and the position from which on the nodes of
    /// the path were created by this descent.
    #[verifier::rlimit(100)]
    pub fn descend(&mut self, hist: u64, max_depth: u16, fringe_h: u16, path: &mut Vec<u32>) -> (r: (bool, usize, usize))
        requires
            old(self).wf(),
            max_depth <= 64,
        ensures
            final(self).wf(),
            ({
                let na = final(self).arena();
                let p = final(path)@;
                let l = p.len() - 1;
                let o = old(self).arena();
                let of = old(self).free_list();
                &&& follows(na, final(self).free_list(), hist, p)
                &&& l <= max_depth
                &&& r.1 == last_proper(na, p, l)
                &&& forall|k: int| 0 <= k < l ==> #[trigger] goes_on(na, p, k, fringe_h)
                &&& r.0 <==> (l == max_depth || !goes_on(na, p, l, fringe_h) || (na[p[l] as int].child[hist_bit(hist, l)]
                    == NONE && l - r.1 >= fringe_h))
                &&& !r.0 ==> na[p[l] as int].child[hist_bit(hist, l)] == NONE && final(self).free_list().len() == 0
                    && na.len() >= old(self).spec_max_nodes()
                &&& na.len() >= o.len()
                &&& forall|i: int| 0 <= i < o.len() && !p.contains(i as u32) ==> #[trigger] na[i] == o[i]
                &&& forall|i: int|
                    #[trigger] live(na, final(self).free_list(), i) <==> live(o, of, i) || (0 <= i < na.len()
                        && p.contains(i as u32))
                &&& forall|k: int| 0 <= k <= l ==> #[trigger] path_node_ok(o, of, na, hist, p, k)
                &&& final(self).free_list() == of.subrange(0, final(self).free_list().len() as int)
            }),
            taken_in_order(
                old(self).arena().len() as int,
                old(self).free_list(),
                final(self).free_list(),
                final(self).arena().len() as int,
                final(path)@,
                count_live(old(self).arena(), old(self).free_list(), final(path)@),
            ),
            forall|k: int|
                0 <= k < final(path)@.len() ==> (#[trigger] live(old(self).arena(), old(self).free_list(), final(path)@[k] as int)
                    <==> k < count_live(old(self).arena(), old(self).free_list(), final(path)@)),
            r.2 == count_live(old(self).arena(), old(self).free_list(), final(path)@),
            final(self).spec_proper_count() == old(self).spec_proper_count(),
            final(self).spec_max_nodes() == old(self).spec_max_nodes(),
            final(self).spec_rng() == old(self).spec_rng(),
            final(self).bits_counted() == old(self).bits_counted(),
    {
        path.clear();
        path.push(0);
        let mut cur: u32 = 0;
        let mut lp: usize = 0;
        let mut d: usize = 0;
        let ghost o = self.nodes@;
        let ghost of = self.free@;
        let ghost mut s: int = 1;
        let mut fresh: usize = 1;
        proof {
            assert(path@ =~= seq![0u32]);
            assert(path@.drop_last() =~= Seq::<u32>::empty());
            assert(count_live(o, of, path@) == 1) by {
                reveal_with_fuel(count_live, 2);
            }
            assert(live(o, of, 0));
            assert(path_node_ok(o, of, self.nodes@, hist, path@, 0));
        }
        loop
            invariant
                self.wf(),
                max_depth <= 64,
                o == old(self).nodes@,
                of == old(self).free@,
                old(self).wf(),
                d == path@.len() - 1,
                d <= max_depth,
                cur == path@[d as int],
                follows(self.nodes@, self.free@, hist, path@),
                lp == last_proper(self.nodes@, path@, d as int),
                forall|k: int| 0 <= k <= d ==> #[trigger] goes_on(self.nodes@, path@, k, fringe_h),
                self.nodes@.len() >= o.len(),
                forall|i: int| 0 <= i < o.len() && !path@.contains(i as u32) ==> #[trigger] self.nodes@[i] == o[i],
                forall|i: int|
                    #[trigger] live(self.nodes@, self.free@, i) <==> live(o, of, i) || (0 <= i < self.nodes@.len()
                        && path@.contains(i as u32)),
                forall|k: int| 0 <= k <= d ==> #[trigger] path_node_ok(o, of, self.nodes@, hist, path@, k),
                self.free@.len() <= of.len(),
                self.free@ == of.subrange(0, self.free@.len() as int),
                taken_in_order(o.len() as int, of, self.free@, self.nodes@.len() as int, path@, s),
                s == count_live(o, of, path@),
                fresh as int == s,
                forall|k: int| 0 <= k < path@.len() ==> (#[trigger] live(o, of, path@[k] as int) <==> k < s),
                self.proper_count == old(self).proper_count,
                self.max_nodes == old(self).max_nodes,
                self.rng == old(self).rng,
                self.counted == old(self).counted,
            decreases max_depth - d,
        {
            proof {
                lemma_last_proper_range(self.nodes@, path@, d as int);
            }
            if d >= max_depth as usize {
                return (true, lp, fresh);
            }
            let b = ((hist >> d) & 1) as usize;
            proof {
                assert(((hist >> d) & 1) < 2) by (bit_vector);
                assert(b == hist_bit(hist, d as int));
            }
            let c = self.nodes[cur as usize].child[b];
            let ghost n1 = self.nodes@;
            let ghost f1 = self.free@;
            let ghost p1 = path@;
            let next: u32;
            if c == NONE {
                if d - lp >= fringe_h as usize {
                    return (true, lp, fresh);
                }
                proof {
                    assert(live(n1, f1, cur as int));
                    assert(n1[cur as int].depth == d);
                }
                match self.alloc_child(cur, b) {
                    Some(idx) => {
                        next = idx;
                    },
                    None => {
                        return (false, lp, fresh);
                    },
                }
            } else {
                next = c;
            }
            let ghost n2 = self.nodes@;
            let ghost cur0 = cur;
            path.push(next);
            cur = next;
            d += 1;
            if c != NONE {
                fresh = path.len();
            }
            proof {
                let n3 = self.nodes@;
                let f3 = self.free@;
                let p3 = path@;
                let dd = d as int - 1;
                assert(p3 == p1.push(next));
                assert(n3 == n2);
                // what the step changed
                if c != NONE {
                    assert(n1[p1[dd] as int].child[b as int] != NONE);
                    assert(live(n1, f1, next as int));
                    assert(n3 == n1 && f3 == f1);
                    assert(!p1.contains(next)) by {
                        if p1.contains(next) {
                            let k = choose|k: int| 0 <= k < p1.len() && p1[k] == next;
                            assert(n1[p1[k] as int].depth == k);
                        }
                    }
                } else {
                    assert(!live(n1, f1, next as int));
                    assert(!p1.contains(next)) by {
                        if p1.contains(next) {
                            let k = choose|k: int| 0 <= k < p1.len() && p1[k] == next;
                            assert(live(n1, f1, p1[k] as int));
                        }
                    }
                }
                assert(forall|k: int| 0 <= k <= dd ==> #[trigger] p3[k] == p1[k]);
                assert forall|k: int| 0 <= k <= dd implies #[trigger] n3[p3[k] as int].proper == n1[p1[k] as int].proper by {
                    assert(p3[k] == p1[k]);
                    if c == NONE && p1[k] != next {
                        assert(live(n1, f1, p1[k] as int));
                    }
                }
                lemma_last_proper_frame(n3, p3, n1, p1, dd);
                assert forall|k: int| 0 <= k <= dd implies #[trigger] goes_on(n3, p3, k, fringe_h) by {
                    assert(goes_on(n1, p1, k, fringe_h));
                    assert(n3[p3[k] as int].proper == n1[p1[k] as int].proper);
                    lemma_last_proper_frame(n3, p3, n1, p1, k);
                }
                assert(follows(n3, f3, hist, p3)) by {
                    assert forall|k: int| 0 <= k < p3.len() implies live(n3, f3, #[trigger] p3[k] as int) && n3[p3[k] as int].depth == k by {
                        if k <= dd {
                            assert(p3[k] == p1[k]);
                            assert(live(n1, f1, p1[k] as int));
                        }
                    }
                    assert forall|k: int| 0 <= k < p3.len() - 1 implies #[trigger] p3[k + 1] == n3[p3[k] as int].child[hist_bit(hist, k)] by {
                        if k < dd {
                            assert(p1[k + 1] == n1[p1[k] as int].child[hist_bit(hist, k)]);
                        }
                    }
                }
                assert forall|i: int| 0 <= i < o.len() && !p3.contains(i as u32) implies #[trigger] n3[i] == o[i] by {
                    assert(!p1.contains(i as u32)) by {
                        if p1.contains(i as u32) {
                            let k = choose|k: int| 0 <= k < p1.len() && p1[k] == i as u32;
                            assert(p3[k] == i as u32);
                        }
                    }
                    assert(i as u32 != next) by {
                        if i as u32 == next {
                            assert(p3[p3.len() - 1] == next);
                        }
                    }
                }
                assert forall|i: int|
                    #[trigger] live(n3, f3, i) <==> live(o, of, i) || (0 <= i < n3.len() && p3.contains(i as u32)) by {
                    if 0 <= i < n3.len() && p3.contains(i as u32) {
                        let k = choose|k: int| 0 <= k < p3.len() && p3[k] == i as u32;
                        assert(live(n3, f3, p3[k] as int));
                    }
                    if 0 <= i < n1.len() && p1.contains(i as u32) {
                        let k = choose|k: int| 0 <= k < p1.len() && p1[k] == i as u32;
                        assert(p3[k] == i as u32);
                    }
                    if live(n3, f3, i) && i != next {
                        if c == NONE {
                            assert(i < n1.len());
                            if f1.contains(i as u32) {
                                let k = choose|k: int| 0 <= k < f1.len() && f1[k] == i as u32;
                                if f1.len() > 0 && k == f1.len() - 1 {
                                    assert(f1.last() == next);
                                } else {
                                    assert(f3[k] == i as u32);
                                }
                            }
                        }
                        assert(live(n1, f1, i));
                        if !live(o, of, i) {
                            assert(p1.contains(i as u32));
                            let k = choose|k: int| 0 <= k < p1.len() && p1[k] == i as u32;
                            assert(p3[k] == i as u32);
                        }
                    }
                    if live(n3, f3, i) && i == next {
                        assert(p3[p3.len() - 1] == next);
                    }
                    if live(n1, f1, i) {
                        assert(live(n3, f3, i));
                    }
                }
                assert forall|k: int| 0 <= k <= d implies #[trigger] path_node_ok(o, of, n3, hist, p3, k) by {
                    if k < dd {
                        assert(path_node_ok(o, of, n1, hist, p1, k));
                        assert(p3[k] == p1[k]);
                        assert(p1[k] != next);
                        assert(p1[k] != cur0) by {
                            assert(n1[p1[k] as int].depth == k);
                        }
                        if c == NONE {
                            assert(live(n1, f1, p1[k] as int));
                        }
                        assert(n3[p3[k] as int] == n1[p1[k] as int]);
                        assert(p3.len() - 1 != k && p1.len() - 1 != k);
                        assert(path_node_ok(o, of, n3, hist, p3, k));
                    } else if k == dd {
                        assert(path_node_ok(o, of, n1, hist, p1, k));
                        assert(p3[k] == p1[k]);
                        lemma_hist_bit(hist, k);
                        assert(hist_bit(hist, k) == b);
                        let pc = cur0 as int;
                        if live(o, of, pc) {
                            assert(n1[pc].child == o[pc].child);
                            assert(n3[pc] == (Node { child: n3[pc].child, ..o[pc] }));
                            assert(n3[pc].child[1 - b] == o[pc].child[1 - b]);
                            assert(o[pc].child[b as int] == NONE || o[pc].child[b as int] == n3[pc].child[b as int]);
                        } else {
                            assert(leaf(n1[pc]));
                            assert(n3[pc].child[1 - b] == NONE);
                        }
                        assert(path_node_ok(o, of, n3, hist, p3, k));
                    } else {
                        if c != NONE {
                            let pc = p1[dd] as int;
                            assert(live(o, of, pc)) by {
                                if !live(o, of, pc) {
                                    assert(path_node_ok(o, of, n1, hist, p1, dd));
                                    assert(leaf(n1[pc]));
                                }
                            }
                            assert(path_node_ok(o, of, n1, hist, p1, dd));
                            assert(o[pc].child[b as int] == next);
                            assert(live(o, of, next as int));
                            assert(n3[next as int] == o[next as int]);
                        } else {
                            assert(!live(o, of, next as int));
                            assert(n3[next as int].depth == d);
                            assert(n3[next as int].parent == cur0);
                            assert(p3[k - 1] == cur0);
                        }
                        assert(path_node_ok(o, of, n3, hist, p3, k));
                    }
                }
                assert(f3 == of.subrange(0, f3.len() as int)) by {
                    if c == NONE && f1.len() > 0 {
                        assert(f3 == f1.drop_last());
                        assert(f3 =~= of.subrange(0, f3.len() as int));
                    }
                }
                if c != NONE {
                    assert(s == p1.len()) by {
                        if s < p1.len() {
                            assert(!live(o, of, p1[dd] as int));
                            assert(path_node_ok(o, of, n1, hist, p1, dd));
                            assert(leaf(n1[p1[dd] as int]));
                        }
                    }
                    lemma_taken_existing(o.len() as int, of, f1, n1.len() as int, p1, next);
                    s = p3.len() as int;
                    assert(fresh as int == s);
                } else {
                    lemma_taken_alloc(o.len() as int, of, f1, n1.len() as int, p1, s, f3, n3.len() as int, next);
                }
                assert(p3.drop_last() == p1);
                assert(count_live(o, of, p3) == count_live(o, of, p1) + if live(o, of, next as int) { 1int } else { 0 });
                assert forall|k: int| 0 <= k < p3.len() implies (#[trigger] live(o, of, p3[k] as int) <==> k < s) by {
                    if k < p1.len() {
                        assert(p3[k] == p1[k]);
                    }
                }
            }
            if self.nodes[cur as usize].proper {
                lp = d;
            } else if d - lp >= fringe_h as usize {
                return (true, lp, fresh);
            }
        }
    }

    /// What every operation keeps: the live nodes form a tree under the
    /// proper root, the count of proper nodes is the number of live proper
    /// nodes, and the arena, proper nodes and fringe together, holds no more
    /// nodes than its budget (the root aside).
    pub proof fn lemma_wf_facts(&self)
        requires
            self.wf(),
        ensures
            tree_ok(self.arena(), self.free_list()),
            self.arena()[0].proper,
            proper_nodes(self.arena(), self.free_list()).finite(),
            self.spec_proper_count() == proper_nodes(self.arena(), self.free_list()).len(),
            self.arena().len() <= self.spec_max_nodes() || self.arena().len() == 1,
            self.spec_proper_count() <= self.arena().len(),
    {
        lemma_small_set(proper_nodes(self.nodes@, self.free@), self.nodes@.len() as int);
    }

    /// The largest depth among the arena's entries marked proper, free ones
    /// included; 0 when there is none.
    pub fn max_proper_depth(&self) -> (r: u16)
        ensures
            forall|i: int| 0 <= i < self.arena().len() && #[trigger] self.arena()[i].proper ==> self.arena()[i].depth <= r,
            r == 0 || exists|i: int| 0 <= i < self.arena().len() && #[trigger] self.arena()[i].proper && self.arena()[i].depth == r,
    {
        let mut r: u16 = 0;
        let mut i: usize = 0;
        while i < self.nodes.len()
            invariant
                i <= self.nodes@.len(),
                forall|j: int| 0 <= j < i && #[trigger] self.nodes@[j].proper ==> self.nodes@[j].depth <= r,
                r == 0 || exists|j: int| 0 <= j < i && #[trigger] self.nodes@[j].proper && self.nodes@[j].depth == r,
            decreases self.nodes@.len() - i,
        {
            let nd = self.nodes[i];
            if nd.proper && nd.depth > r {
                r = nd.depth;
                proof {
                    assert(self.nodes@[i as int].proper && self.nodes@[i as int].depth == r);
                }
            }
            i += 1;
        }
        proof {
            if r != 0 {
                let j = choose|j: int| 0 <= j < i && #[trigger] self.nodes@[j].proper && self.nodes@[j].depth == r;
                assert(self.arena()[j].proper && self.arena()[j].depth == r);
            }
        }
        r
    }

    /// Seeds the sampling generator.
    pub fn set_seed(&mut self, seed: u64)
        ensures
            final(self).spec_rng() == seed,
            final(self).arena() == old(self).arena(),
            final(self).free_list() == old(self).free_list(),
            final(self).spec_proper_count() == old(self).spec_proper_count(),
            final(self).spec_max_nodes() == old(self).spec_max_nodes(),
            old(self).wf() ==> final(self).wf(),
    {
        self.rng = seed;
    }
}

} // verus!
