//! budget-CTW: context tree weighting under a hard node budget with eviction.
//!
//! Without a budget the arena is unbounded and eviction never fires, so the
//! "full CTW" baseline runs through the same code and the same arithmetic as the
//! budgeted variant. Comparisons measure the loss from eviction, not the
//! difference between two implementations. No floating point anywhere.
use vstd::prelude::*;
use vstd::arithmetic::div_mod::*;
use crate::fixed::{
    Tables, ONE, log2_int_value, log2_1p_exp2_value, pos_part, lemma_log2_int_value,
    lemma_log2_int_monotone, lemma_log2_1p_exp2_bounds, log2_floor, lemma_log2_floor,
};

verus! {

/// Marks an absent parent or an unlisted leaf position.
pub const NONE: u32 = 0xFFFF_FFFF;

/// Which leaf to evict when the arena is full.
#[derive(Clone, Copy, Debug, PartialEq, Eq, Structural)]
pub enum Victim {
    /// Sampled LFU: sample S leaves, evict the least visited.
    Lfu,
    /// Space-Saving on a separate priority: evict the minimum, the new node gets
    /// c_min + 1. The KT counters stay cold.
    ///
    /// The split of roles is the point here: a CTW node counter serves two
    /// different tasks, "how often was this context seen" (structure, which
    /// Space-Saving handles) and "what is the distribution of the next symbol"
    /// (the parameter, which KT handles). Inheriting mass helps the first and
    /// spoils the second.
    Ss,
    /// A random leaf: a weak baseline for comparison.
    Random,
}

/// How a newly created node starts its counters.
#[derive(Clone, Copy, Debug, PartialEq, Eq, Structural)]
pub enum Birth {
    /// The new node starts from zeros.
    Cold,
    /// The Space-Saving trick: the new node inherits the mass of the evicted
    /// one (c_min), split in the parent's proportion.
    SpaceSaving,
    /// A warm start from the parent, discounted by gamma.
    Parent,
}

/// A node of the arena. Indices instead of pointers.
///
/// `parent` is needed to detach an evicted leaf; the slot number is found by
/// comparison. `leaf_pos` is the position in the leaf list, giving O(1)
/// removal.
#[derive(Clone, Copy, Debug)]
pub struct Node {
    pub n: [u32; 2],
    pub child: [u32; 2],
    pub parent: u32,
    pub leaf_pos: u32,
    /// Space-Saving priority: context frequency, separate from the KT counters.
    /// Present under every policy so that the node size does not depend on it.
    pub prio: u32,
    /// Bits 0/1: a child was already evicted from this slot. Tells a repeated
    /// creation of a node from the first one.
    pub evicted_slots: u8,
    pub logbeta: i64,
}

/// A node as created: given counters and priority, no children, unlisted,
/// log beta zero.
pub open spec fn is_fresh(nd: Node, parent: u32, n0: u32, n1: u32, prio: u32) -> bool {
    &&& nd.n[0] == n0
    &&& nd.n[1] == n1
    &&& nd.child[0] == 0
    &&& nd.child[1] == 0
    &&& nd.parent == parent
    &&& nd.leaf_pos == NONE
    &&& nd.prio == prio
    &&& nd.evicted_slots == 0
    &&& nd.logbeta == 0
}

impl Node {
    /// A fresh node: log beta = 0, because an empty node has P_e = 1 and both
    /// (absent) children P_w = 1, so beta = 1.
    pub fn fresh(parent: u32, n0: u32, n1: u32, prio: u32) -> (nd: Node)
        ensures
            is_fresh(nd, parent, n0, n1, prio),
    {
        Node {
            n: [n0, n1],
            child: [0, 0],
            parent,
            leaf_pos: NONE,
            prio,
            evicted_slots: 0,
            logbeta: 0,
        }
    }
}

/// The node has no children.
pub open spec fn childless(nd: Node) -> bool {
    nd.child[0] == 0 && nd.child[1] == 0
}

/// Total visits counted by a node.
pub open spec fn visits(nd: Node) -> int {
    nd.n[0] + nd.n[1]
}

/// log2 of the KT conditional probability of symbol x at a node,
/// (2 n_x + 1) / (2 n + 2), in Q24.
pub open spec fn kt_log_cond_value(nd: Node, x: int) -> int {
    log2_int_value(2 * nd.n[x] + 1) - log2_int_value(2 * visits(nd) + 2)
}

/// Bound on the change of a node's log beta per processed bit.
pub open spec fn logbeta_step() -> int {
    96 * ONE
}

/// The KT conditional log-probability of a node that has seen fewer than 2^32
/// symbols lies in [-33, 0].
pub proof fn lemma_kt_log_cond_bounds(nd: Node, x: int)
    requires
        0 <= x < 2,
        visits(nd) < 0x1_0000_0000,
    ensures
        -33 * ONE <= kt_log_cond_value(nd, x) <= 0,
{
    let num = 2 * nd.n[x] + 1;
    let den = 2 * visits(nd) + 2;
    lemma_log2_int_monotone(num, den);
    lemma_log2_int_value(num);
    lemma_log2_int_value(den);
    lemma_log2_floor(num);
    lemma_log2_floor(den);
    let k = log2_floor(den);
    vstd::arithmetic::power2::lemma2_to64();
    vstd::arithmetic::power2::lemma2_to64_rest();
    if den == 0x2_0000_0000 {
        crate::fixed::lemma_log2_int_pow2(33);
    } else if k >= 33 {
        if k > 33 {
            vstd::arithmetic::power2::lemma_pow2_strictly_increases(33, k as nat);
        }
    } else {
        assert((k + 1) * ONE <= 33 * ONE) by (nonlinear_arith)
            requires
                k <= 32,
        ;
    }
    assert(log2_floor(num) * ONE >= 0) by (nonlinear_arith)
        requires
            log2_floor(num) >= 0,
    ;
}

/// The path runs from the root down through child links.
pub open spec fn path_ok(nodes: Seq<Node>, path: Seq<u32>) -> bool {
    &&& path.len() >= 1
    &&& path[0] == 0
    &&& forall|d: int| 0 <= d < path.len() ==> #[trigger] path[d] < nodes.len()
    &&& forall|d: int|
        0 < d < path.len() ==> #[trigger] path[d] != 0 && (nodes[path[d - 1] as int].child[0]
            == path[d] || nodes[path[d - 1] as int].child[1] == path[d])
}

/// log2 of the update ratio r = P_w^root(after) / P_w^root(before) seen from
/// path position d: the deepest node acts as a leaf, every node above mixes its
/// own KT estimate with its children through log beta.
pub open spec fn walk_value(nodes: Seq<Node>, path: Seq<u32>, x: int, d: int) -> int
    decreases path.len() - d,
{
    if d >= path.len() - 1 {
        kt_log_cond_value(nodes[path[path.len() - 1] as int], x)
    } else {
        let lr = walk_value(nodes, path, x, d + 1);
        let nd = nodes[path[d] as int];
        let lb = nd.logbeta as int;
        let lb_new = lb + kt_log_cond_value(nd, x) - lr;
        lr + log2_1p_exp2_value(lb_new) - log2_1p_exp2_value(lb)
    }
}

/// The new log beta of the node at path position d (above the deepest).
pub open spec fn walked_logbeta(nodes: Seq<Node>, path: Seq<u32>, x: int, d: int) -> int {
    nodes[path[d] as int].logbeta + kt_log_cond_value(nodes[path[d] as int], x) - walk_value(
        nodes,
        path,
        x,
        d + 1,
    )
}

proof fn lemma_mixing_step_bounds(lr: int, lq: int, lb: int)
    ensures
        log2_1p_exp2_value(lb + lq - lr) - log2_1p_exp2_value(lb) >= (if lq < lr {
            lq - lr
        } else {
            0
        }) - ONE,
        log2_1p_exp2_value(lb + lq - lr) - log2_1p_exp2_value(lb) <= (if lq > lr {
            lq - lr
        } else {
            0
        }) + ONE,
{
    lemma_log2_1p_exp2_bounds(lb + lq - lr);
    lemma_log2_1p_exp2_bounds(lb);
}

/// Each mixing level moves the ratio by at most one bit beyond the range of
/// the estimates: the walk value stays in [-33 - levels, levels] bits.
pub proof fn lemma_walk_bounds(nodes: Seq<Node>, path: Seq<u32>, x: int, d: int)
    requires
        path_ok(nodes, path),
        0 <= x < 2,
        0 <= d < path.len(),
        forall|i: int| 0 <= i < nodes.len() ==> visits(#[trigger] nodes[i]) < 0x1_0000_0000,
    ensures
        -33 * ONE - (path.len() - 1 - d) * ONE <= walk_value(nodes, path, x, d) <= (path.len() - 1
            - d) * ONE,
    decreases path.len() - d,
{
    let k = path.len() - 1;
    if d >= k {
        lemma_kt_log_cond_bounds(nodes[path[k] as int], x);
    } else {
        lemma_walk_bounds(nodes, path, x, d + 1);
        let nd = nodes[path[d] as int];
        lemma_kt_log_cond_bounds(nd, x);
        lemma_mixing_step_bounds(walk_value(nodes, path, x, d + 1), kt_log_cond_value(nd, x), nd.logbeta as int);
        assert((k - d) * ONE == (k - (d + 1)) * ONE + ONE) by (nonlinear_arith);
    }
}

/// The per-bit bound scales linearly with the clock and stays below 2^63.
pub proof fn lemma_step_scale(t: int)
    requires
        0 <= t <= 0xFFFF_FFFF,
    ensures
        0 <= logbeta_step() * t <= logbeta_step() * 0xFFFF_FFFF,
        logbeta_step() * (t + 1) == logbeta_step() * t + logbeta_step(),
        -logbeta_step() * t == -(logbeta_step() * t),
        -logbeta_step() * (t + 1) == -(logbeta_step() * t) - logbeta_step(),
        logbeta_step() * 0xFFFF_FFFF + logbeta_step() < 0x8000_0000_0000_0000,
{
    let s = logbeta_step();
    assert(-s * t == -(s * t)) by (nonlinear_arith);
    assert(-s * (t + 1) == -(s * t) - s) by (nonlinear_arith);
    assert(0 <= s * t <= s * 0xFFFF_FFFF) by (nonlinear_arith)
        requires
            s > 0,
            0 <= t <= 0xFFFF_FFFF,
    ;
    assert(s * (t + 1) == s * t + s) by (nonlinear_arith);
}

/// On a path of at most 64 nodes the new log beta of a node stays within one
/// step of the bound on the old one, and the ratio at the root within
/// [-96, 63] bits.
pub proof fn lemma_walk_step_bounds(nodes: Seq<Node>, path: Seq<u32>, x: int, t: int)
    requires
        path_ok(nodes, path),
        path.len() <= 64,
        0 <= x < 2,
        0 <= t < 0x1_0000_0000,
        forall|i: int|
            0 <= i < nodes.len() ==> visits(#[trigger] nodes[i]) <= t && -logbeta_step() * t <= nodes[i].logbeta
                <= logbeta_step() * t,
    ensures
        -96 * ONE <= walk_value(nodes, path, x, 0) <= 63 * ONE,
        forall|d: int|
            0 <= d < path.len() - 1 ==> -logbeta_step() * (t + 1) <= #[trigger] walked_logbeta(nodes, path, x, d)
                <= logbeta_step() * (t + 1),
{
    assert forall|i: int| 0 <= i < nodes.len() implies visits(#[trigger] nodes[i]) < 0x1_0000_0000 by {}
    lemma_walk_bounds(nodes, path, x, 0);
    assert((path.len() - 1) * ONE <= 63 * ONE) by (nonlinear_arith)
        requires
            path.len() <= 64,
    ;
    assert forall|d: int| 0 <= d < path.len() - 1 implies -logbeta_step() * (t + 1) <= #[trigger] walked_logbeta(
        nodes,
        path,
        x,
        d,
    ) <= logbeta_step() * (t + 1) by {
        lemma_walk_bounds(nodes, path, x, d + 1);
        assert((path.len() - 1 - (d + 1)) * ONE <= 62 * ONE) by (nonlinear_arith)
            requires
                path.len() - 1 - (d + 1) <= 62,
        ;
        assert(0 <= (path.len() - 1 - (d + 1)) * ONE) by (nonlinear_arith)
            requires
                path.len() - 1 - (d + 1) >= 0,
        ;
        let nd = nodes[path[d] as int];
        assert(path[d] < nodes.len());
        lemma_kt_log_cond_bounds(nd, x);
        lemma_step_scale(t);
        let lr = walk_value(nodes, path, x, d + 1);
        assert(-95 * ONE <= lr <= 62 * ONE);
        let lq = kt_log_cond_value(nd, x);
        assert(-33 * ONE <= lq <= 0);
        assert(-logbeta_step() * t <= nd.logbeta <= logbeta_step() * t);
        assert(walked_logbeta(nodes, path, x, d) == nd.logbeta + lq - lr);
    }
}

/// Links of the arena are consistent: every child points back to its parent,
/// is one level deeper, and every node but the root hangs under its parent.
/// `hole` (or -1) is an index not linked into the tree.
#[verifier::opaque]
pub open spec fn links_ok(nodes: Seq<Node>, level: Seq<int>, depth: int, hole: int) -> bool {
    &&& nodes.len() >= 1
    &&& level.len() == nodes.len()
    &&& hole != 0
    &&& level[0] == 0
    &&& nodes[0].parent == NONE
    &&& forall|i: int, b: int|
        0 <= i < nodes.len() && i != hole && 0 <= b < 2 && #[trigger] nodes[i].child[b] != 0 ==> {
            let c = nodes[i].child[b] as int;
            &&& c < nodes.len()
            &&& c != hole
            &&& nodes[c].parent == i
            &&& level[c] == level[i] + 1
        }
    &&& forall|i: int|
        0 <= i < nodes.len() && i != hole ==> #[trigger] nodes[i].child[0] != nodes[i].child[1]
            || nodes[i].child[0] == 0
    &&& forall|i: int|
        0 < i < nodes.len() && i != hole ==> {
            let p = #[trigger] nodes[i].parent as int;
            &&& p < nodes.len()
            &&& p != hole
            &&& (nodes[p].child[0] == i || nodes[p].child[1] == i)
        }
    &&& forall|i: int| 0 <= i < nodes.len() && i != hole ==> 0 <= #[trigger] level[i] <= depth
}

/// The leaf list and the nodes' positions in it agree.
#[verifier::opaque]
pub open spec fn leaf_index_ok(nodes: Seq<Node>, leaves: Seq<u32>) -> bool {
    &&& forall|p: int|
        0 <= p < leaves.len() ==> {
            let v = #[trigger] leaves[p] as int;
            &&& 0 < v < nodes.len()
            &&& nodes[v].leaf_pos == p
        }
    &&& forall|v: int|
        0 <= v < nodes.len() && #[trigger] nodes[v].leaf_pos != NONE ==> {
            &&& nodes[v].leaf_pos < leaves.len()
            &&& leaves[nodes[v].leaf_pos as int] == v
        }
}

/// Exactly the childless nodes other than the root (and the hole) are listed.
#[verifier::opaque]
pub open spec fn leaf_set_ok(nodes: Seq<Node>, hole: int) -> bool {
    forall|v: int|
        0 <= v < nodes.len() ==> (#[trigger] nodes[v].leaf_pos != NONE <==> (v != 0 && v != hole
            && childless(nodes[v])))
}

/// Counters and log beta stay within what t bits can produce.
#[verifier::opaque]
pub open spec fn counts_ok(nodes: Seq<Node>, t: int) -> bool {
    forall|i: int|
        0 <= i < nodes.len() ==> {
            let nd = #[trigger] nodes[i];
            &&& visits(nd) <= t
            &&& -logbeta_step() * t <= nd.logbeta <= logbeta_step() * t
        }
}

/// Along a path from the root, position d sits at level d; so path entries
/// are distinct.
pub proof fn lemma_path_levels(nodes: Seq<Node>, level: Seq<int>, depth: int, hole: int, path: Seq<u32>)
    requires
        links_ok(nodes, level, depth, hole),
        path_ok(nodes, path),
        forall|d: int| 0 <= d < path.len() ==> #[trigger] path[d] != hole,
    ensures
        forall|d: int| 0 <= d < path.len() ==> level[#[trigger] path[d] as int] == d,
        forall|d1: int, d2: int|
            0 <= d1 < path.len() && 0 <= d2 < path.len() && d1 != d2 ==> #[trigger] path[d1]
                != #[trigger] path[d2],
{
    assert forall|d: int| 0 <= d < path.len() implies level[#[trigger] path[d] as int] == d by {
        lemma_path_level_at(nodes, level, depth, hole, path, d);
    }
    assert forall|d1: int, d2: int|
        0 <= d1 < path.len() && 0 <= d2 < path.len() && d1 != d2 implies #[trigger] path[d1]
            != #[trigger] path[d2] by {
        lemma_path_level_at(nodes, level, depth, hole, path, d1);
        lemma_path_level_at(nodes, level, depth, hole, path, d2);
    }
}

proof fn lemma_path_level_at(nodes: Seq<Node>, level: Seq<int>, depth: int, hole: int, path: Seq<u32>, d: int)
    requires
        links_ok(nodes, level, depth, hole),
        path_ok(nodes, path),
        forall|e: int| 0 <= e < path.len() ==> #[trigger] path[e] != hole,
        0 <= d < path.len(),
    ensures
        level[path[d] as int] == d,
    decreases d,
{
    reveal(links_ok);
    if d > 0 {
        lemma_path_level_at(nodes, level, depth, hole, path, d - 1);
        let p = path[d - 1] as int;
        assert(path[d - 1] < nodes.len());
        assert(p != hole);
        if nodes[p].child[0] == path[d] {
            assert(nodes[p].child[0] != 0);
        } else {
            assert(nodes[p].child[1] != 0);
        }
    }
}

/// The nodes agree everywhere but in their leaf positions.
pub open spec fn same_but_leaf_pos(a: Seq<Node>, b: Seq<Node>) -> bool {
    &&& a.len() == b.len()
    &&& forall|i: int| 0 <= i < a.len() ==> #[trigger] b[i] == (Node { leaf_pos: b[i].leaf_pos, ..a[i] })
}

/// Bounds on the counters of one node.
pub proof fn lemma_counts_at(nodes: Seq<Node>, t: int, i: int)
    requires
        counts_ok(nodes, t),
        0 <= i < nodes.len(),
    ensures
        visits(nodes[i]) <= t,
        -logbeta_step() * t <= nodes[i].logbeta <= logbeta_step() * t,
{
    reveal(counts_ok);
}

/// Every node has seen fewer than 2^32 symbols.
pub proof fn lemma_visits_bounded(nodes: Seq<Node>, t: int)
    requires
        counts_ok(nodes, t),
        t < 0x1_0000_0000,
    ensures
        forall|i: int| 0 <= i < nodes.len() ==> visits(#[trigger] nodes[i]) < 0x1_0000_0000,
{
    reveal(counts_ok);
}

/// Levels lie within the depth.
pub proof fn lemma_level_bound(nodes: Seq<Node>, level: Seq<int>, depth: int, hole: int, i: int)
    requires
        links_ok(nodes, level, depth, hole),
        0 <= i < nodes.len(),
        i != hole,
    ensures
        0 <= level[i] <= depth,
        level.len() == nodes.len(),
{
    reveal(links_ok);
}

/// A child link leads one level down to a node whose parent is the linking node.
pub proof fn lemma_child_link(nodes: Seq<Node>, level: Seq<int>, depth: int, i: int, b: int)
    requires
        links_ok(nodes, level, depth, -1),
        0 <= i < nodes.len(),
        0 <= b < 2,
        nodes[i].child[b] != 0,
    ensures
        nodes[i].child[b] < nodes.len(),
        nodes[nodes[i].child[b] as int].parent == i,
        level[nodes[i].child[b] as int] == level[i] + 1,
{
    reveal(links_ok);
}

/// The root exists and sits at level 0.
pub proof fn lemma_root(nodes: Seq<Node>, level: Seq<int>, depth: int, hole: int)
    requires
        links_ok(nodes, level, depth, hole),
    ensures
        nodes.len() >= 1,
        level.len() == nodes.len(),
        level[0] == 0,
        hole != 0,
{
    reveal(links_ok);
}

/// The links depend on the child and parent fields only.
pub proof fn lemma_links_frame(a: Seq<Node>, b: Seq<Node>, level: Seq<int>, depth: int, hole: int)
    requires
        links_ok(a, level, depth, hole),
        a.len() == b.len(),
        forall|i: int| 0 <= i < a.len() ==> (#[trigger] b[i]).child == a[i].child && b[i].parent == a[i].parent,
    ensures
        links_ok(b, level, depth, hole),
{
    reveal(links_ok);
    assert forall|i: int, bb: int|
        0 <= i < b.len() && i != hole && 0 <= bb < 2 && #[trigger] b[i].child[bb] != 0 implies {
        let c = b[i].child[bb] as int;
        &&& c < b.len()
        &&& c != hole
        &&& b[c].parent == i
        &&& level[c] == level[i] + 1
    } by {
        assert(b[i].child == a[i].child);
        assert(a[i].child[bb] != 0);
        let c = a[i].child[bb] as int;
        assert(b[c].parent == a[c].parent);
    }
    assert forall|i: int| 0 < i < b.len() && i != hole implies {
        let p = #[trigger] b[i].parent as int;
        &&& p < b.len()
        &&& p != hole
        &&& (b[p].child[0] == i || b[p].child[1] == i)
    } by {
        assert(b[i].parent == a[i].parent);
        let p = a[i].parent as int;
        assert(b[p].child == a[p].child);
    }
    assert forall|i: int| 0 <= i < b.len() && i != hole implies #[trigger] b[i].child[0] != b[i].child[1]
        || b[i].child[0] == 0 by {
        assert(b[i].child == a[i].child);
    }
    assert(b[0].parent == a[0].parent);
}

/// Which nodes are listed depends on the leaf positions and children only.
pub proof fn lemma_leaf_set_frame(a: Seq<Node>, b: Seq<Node>, hole: int)
    requires
        leaf_set_ok(a, hole),
        a.len() == b.len(),
        forall|i: int| 0 <= i < a.len() ==> (#[trigger] b[i]).child == a[i].child && b[i].leaf_pos == a[i].leaf_pos,
    ensures
        leaf_set_ok(b, hole),
{
    reveal(leaf_set_ok);
    assert forall|v: int| 0 <= v < b.len() implies (#[trigger] b[v].leaf_pos != NONE <==> (v != 0 && v != hole
        && childless(b[v]))) by {
        assert(b[v].child == a[v].child);
        assert(a[v].leaf_pos != NONE <==> (v != 0 && v != hole && childless(a[v])));
    }
}

/// Counters bounded node by node.
pub proof fn lemma_counts_intro(nodes: Seq<Node>, t: int)
    requires
        forall|i: int|
            0 <= i < nodes.len() ==> visits(#[trigger] nodes[i]) <= t && -logbeta_step() * t <= nodes[i].logbeta
                <= logbeta_step() * t,
    ensures
        counts_ok(nodes, t),
{
    reveal(counts_ok);
}

/// Leaf positions consistency depends on the leaf positions only.
pub proof fn lemma_leaf_index_frame(a: Seq<Node>, b: Seq<Node>, leaves: Seq<u32>)
    requires
        leaf_index_ok(a, leaves),
        a.len() == b.len(),
        forall|i: int| 0 <= i < a.len() ==> #[trigger] b[i].leaf_pos == a[i].leaf_pos,
    ensures
        leaf_index_ok(b, leaves),
{
    reveal(leaf_index_ok);
    assert forall|w: int|
        0 <= w < b.len() && #[trigger] b[w].leaf_pos != NONE implies {
        &&& b[w].leaf_pos < leaves.len()
        &&& leaves[b[w].leaf_pos as int] == w
    } by {
        assert(a[w].leaf_pos == b[w].leaf_pos);
    }
}

/// A listed node is a childless non-root node; its position is in the list.
pub proof fn lemma_listed(nodes: Seq<Node>, leaves: Seq<u32>, hole: int, v: int)
    requires
        leaf_index_ok(nodes, leaves),
        leaf_set_ok(nodes, hole),
        0 <= v < nodes.len(),
    ensures
        nodes[v].leaf_pos != NONE <==> (v != 0 && v != hole && childless(nodes[v])),
        nodes[v].leaf_pos != NONE ==> nodes[v].leaf_pos < leaves.len() && leaves[nodes[v].leaf_pos as int] == v,
{
    reveal(leaf_index_ok);
    reveal(leaf_set_ok);
}

/// Entry p of the list is a listed node at position p.
pub proof fn lemma_list_entry(nodes: Seq<Node>, leaves: Seq<u32>, p: int)
    requires
        leaf_index_ok(nodes, leaves),
        0 <= p < leaves.len(),
    ensures
        0 < leaves[p] < nodes.len(),
        nodes[leaves[p] as int].leaf_pos == p,
{
    reveal(leaf_index_ok);
}

/// The parent of a non-root node links to it, so the parent is not childless.
pub proof fn lemma_parent_link(nodes: Seq<Node>, level: Seq<int>, depth: int, v: int)
    requires
        links_ok(nodes, level, depth, -1),
        0 < v < nodes.len(),
    ensures
        nodes[v].parent < nodes.len(),
        nodes[nodes[v].parent as int].child[0] == v || nodes[nodes[v].parent as int].child[1] == v,
        !childless(nodes[nodes[v].parent as int]),
        nodes[nodes[v].parent as int].child[0] != nodes[nodes[v].parent as int].child[1],
{
    reveal(links_ok);
}

/// Appending a fresh node keeps the arena consistent, with the new node as the
/// unlinked hole.
proof fn lemma_push_hole(
    old: Seq<Node>,
    new: Seq<Node>,
    lv: Seq<int>,
    lv2: Seq<int>,
    depth: int,
    leaves: Seq<u32>,
    t: int,
)
    requires
        links_ok(old, lv, depth, -1),
        leaf_index_ok(old, leaves),
        leaf_set_ok(old, -1),
        counts_ok(old, t),
        t >= 0,
        new == old.push(new[old.len() as int]),
        is_fresh(new[old.len() as int], new[old.len() as int].parent, 0, 0, 0),
        lv2 == lv.push(0),
    ensures
        links_ok(new, lv2, depth, old.len() as int),
        leaf_index_ok(new, leaves),
        leaf_set_ok(new, old.len() as int),
        counts_ok(new, t),
{
    reveal(links_ok);
    reveal(leaf_index_ok);
    reveal(leaf_set_ok);
    reveal(counts_ok);
    let l = old.len() as int;
    assert forall|i: int| 0 <= i < l implies #[trigger] new[i] == old[i] by {}
    assert forall|i: int| 0 < i < new.len() && i != l implies {
        let q = #[trigger] new[i].parent as int;
        &&& q < new.len()
        &&& q != l
        &&& (new[q].child[0] == i || new[q].child[1] == i)
    } by {
        assert(new[i] == old[i]);
    }
    assert forall|i: int, b: int|
        0 <= i < new.len() && i != l && 0 <= b < 2 && #[trigger] new[i].child[b] != 0 implies {
        let c = new[i].child[b] as int;
        &&& c < new.len()
        &&& c != l
        &&& new[c].parent == i
        &&& lv2[c] == lv2[i] + 1
    } by {
        assert(new[i] == old[i]);
    }
    assert forall|w: int| 0 <= w < new.len() && #[trigger] new[w].leaf_pos != NONE implies {
        &&& new[w].leaf_pos < leaves.len()
        &&& leaves[new[w].leaf_pos as int] == w
    } by {
        assert(w < l);
    }
    assert forall|i: int| 0 <= i < new.len() implies {
        let nd = #[trigger] new[i];
        &&& visits(nd) <= t
        &&& -logbeta_step() * t <= nd.logbeta <= logbeta_step() * t
    } by {
        assert(logbeta_step() * t >= 0) by (nonlinear_arith)
            requires
                t >= 0,
        ;
        assert(-logbeta_step() * t <= 0) by (nonlinear_arith)
            requires
                t >= 0,
        ;
    }
}

/// Filling the hole with a fresh node linked under its parent restores a
/// consistent arena.
proof fn lemma_attach(
    n0s: Seq<Node>,
    nodes: Seq<Node>,
    lv0: Seq<int>,
    level: Seq<int>,
    depth: int,
    t: int,
    ii: int,
    pp: int,
    slot: int,
)
    requires
        links_ok(n0s, lv0, depth, ii),
        leaf_set_ok(n0s, ii),
        counts_ok(n0s, t),
        t >= 0,
        0 < ii < n0s.len(),
        0 <= pp < n0s.len(),
        pp != ii,
        0 <= slot < 2,
        n0s[pp].child[slot] == 0,
        lv0[pp] < depth,
        nodes.len() == n0s.len(),
        level == lv0.update(ii, lv0[pp] + 1),
        forall|i: int|
            0 <= i < nodes.len() && i != ii && i != pp ==> #[trigger] nodes[i] == (Node {
                leaf_pos: nodes[i].leaf_pos,
                ..n0s[i]
            }) && (nodes[i].leaf_pos != NONE <==> n0s[i].leaf_pos != NONE),
        childless(nodes[ii]),
        nodes[ii].parent == pp,
        visits(nodes[ii]) <= t,
        nodes[ii].logbeta == 0,
        nodes[ii].leaf_pos != NONE,
        nodes[pp] == (Node { leaf_pos: nodes[pp].leaf_pos, child: nodes[pp].child, ..n0s[pp] }),
        nodes[pp].child[slot] == ii,
        nodes[pp].child[1 - slot] == n0s[pp].child[1 - slot],
        nodes[pp].leaf_pos == NONE,
    ensures
        links_ok(nodes, level, depth, -1),
        leaf_set_ok(nodes, -1),
        counts_ok(nodes, t),
{
    reveal(links_ok);
    reveal(leaf_set_ok);
    reveal(counts_ok);
    assert forall|i: int, b: int|
        0 <= i < nodes.len() && 0 <= b < 2 && #[trigger] nodes[i].child[b] != 0 implies {
        let c = nodes[i].child[b] as int;
        &&& c < nodes.len()
        &&& c != -1
        &&& nodes[c].parent == i
        &&& level[c] == level[i] + 1
    } by {
        if i == pp && b == slot {
        } else if i == ii {
        } else {
            assert(n0s[i].child[b] == nodes[i].child[b]);
            let c = nodes[i].child[b] as int;
            assert(c != ii);
            assert(c != pp ==> nodes[c].parent == n0s[c].parent);
            assert(nodes[pp].parent == n0s[pp].parent);
        }
    }
    assert forall|i: int| 0 < i < nodes.len() implies {
        let q = #[trigger] nodes[i].parent as int;
        &&& q < nodes.len()
        &&& q != -1
        &&& (nodes[q].child[0] == i || nodes[q].child[1] == i)
    } by {
        if i != ii {
            let q = n0s[i].parent as int;
            assert(nodes[i].parent == n0s[i].parent);
            assert(q != ii);
            if q == pp {
                assert(n0s[pp].child[slot] == 0);
            }
        }
    }
    assert forall|i: int| 0 <= i < nodes.len() implies #[trigger] nodes[i].child[0]
        != nodes[i].child[1] || nodes[i].child[0] == 0 by {
        if i != ii && i != pp {
            assert(n0s[i].child[0] != n0s[i].child[1] || n0s[i].child[0] == 0);
        }
        if i == pp {
            let other = n0s[pp].child[1 - slot];
            if other != 0 {
                assert(other as int != ii);
            }
        }
    }
    assert forall|i: int| 0 <= i < nodes.len() implies 0 <= #[trigger] level[i] <= depth by {
        if i != ii {
            assert(level[i] == lv0[i]);
        }
    }
    assert forall|w: int| 0 <= w < nodes.len() implies (#[trigger] nodes[w].leaf_pos != NONE <==> (w
        != 0 && w != -1 && childless(nodes[w]))) by {
        if w != ii && w != pp {
            assert(n0s[w].leaf_pos != NONE <==> (w != 0 && w != ii && childless(n0s[w])));
        }
    }
    assert forall|i: int| 0 <= i < nodes.len() implies {
        let nd = #[trigger] nodes[i];
        &&& visits(nd) <= t
        &&& -logbeta_step() * t <= nd.logbeta <= logbeta_step() * t
    } by {
        assert(logbeta_step() * t >= 0) by (nonlinear_arith)
            requires
                t >= 0,
        ;
        assert(-logbeta_step() * t <= 0) by (nonlinear_arith)
            requires
                t >= 0,
        ;
        if i != ii {
            assert(visits(n0s[i]) <= t);
        }
    }
}

/// A list with consistent positions holds distinct non-root nodes, so it is
/// shorter than the arena.
pub proof fn lemma_leaf_list_shorter(nodes: Seq<Node>, leaves: Seq<u32>)
    requires
        leaf_index_ok(nodes, leaves),
        nodes.len() >= 1,
    ensures
        leaves.len() < nodes.len(),
{
    reveal(leaf_index_ok);
    let m = leaves.map_values(|v: u32| v as int);
    assert(m.no_duplicates()) by {
        assert forall|i: int, j: int| 0 <= i < m.len() && 0 <= j < m.len() && i != j implies m[i]
            != m[j] by {
            assert(leaves[i] as int == m[i]);
            assert(nodes[leaves[i] as int].leaf_pos == i);
            assert(nodes[leaves[j] as int].leaf_pos == j);
        }
    }
    m.unique_seq_to_set();
    let r = vstd::set_lib::set_int_range(1, nodes.len() as int);
    assert(m.to_set().subset_of(r)) by {
        assert forall|e: int| m.to_set().contains(e) implies r.contains(e) by {
            let i = choose|i: int| 0 <= i < m.len() && m[i] == e;
            assert(leaves[i] as int == e);
        }
    }
    vstd::set_lib::lemma_int_range(1, nodes.len() as int);
    vstd::set_lib::lemma_len_subset(m.to_set(), r);
}

/// The eviction key of a node under a policy: its visits (LFU), its
/// Space-Saving priority, or nothing (random).
pub open spec fn victim_key(nd: Node, victim: Victim) -> u64 {
    match victim {
        Victim::Lfu => (nd.n[0] + nd.n[1]) as u64,
        Victim::Ss => nd.prio as u64,
        Victim::Random => 0,
    }
}

/// The first leaf of the list from position k on that is not `protect`: the
/// victim when the sampling found none.
pub open spec fn first_other(leaves: Seq<u32>, protect: u32, k: int) -> Option<u32>
    decreases leaves.len() - k,
{
    if k < 0 || k >= leaves.len() {
        None
    } else if leaves[k] != protect {
        Some(leaves[k])
    } else {
        first_other(leaves, protect, k + 1)
    }
}

/// Without another leaf from position k on, every entry there is `protect`.
proof fn lemma_first_other_none(leaves: Seq<u32>, protect: u32, k: int)
    requires
        0 <= k,
        first_other(leaves, protect, k) is None,
    ensures
        forall|j: int| k <= j < leaves.len() ==> leaves[j] == protect,
    decreases leaves.len() - k,
{
    if k < leaves.len() {
        lemma_first_other_none(leaves, protect, k + 1);
    }
}

/// Under the parent policy a new node starts with each of the parent's
/// counts divided by gamma, symbol by symbol and rounded down; so the
/// parent's more frequent symbol stays the more frequent one.
pub proof fn lemma_parent_birth(parent: Node, evicted: Option<u64>, gamma: u32)
    requires
        gamma >= 1,
    ensures
        ({
            let c = birth_counts(Birth::Parent, evicted, parent, gamma);
            &&& c.0 * gamma <= parent.n[0] < (c.0 + 1) * gamma
            &&& c.1 * gamma <= parent.n[1] < (c.1 + 1) * gamma
            &&& parent.n[0] >= parent.n[1] ==> c.0 >= c.1
            &&& parent.n[1] >= parent.n[0] ==> c.1 >= c.0
        }),
{
    let g = gamma as int;
    let a = parent.n[0] as int;
    let b = parent.n[1] as int;
    lemma_fundamental_div_mod(a, g);
    lemma_fundamental_div_mod(b, g);
    lemma_mod_bound(a, g);
    lemma_mod_bound(b, g);
    lemma_div_pos_is_pos(a, g);
    lemma_div_pos_is_pos(b, g);
    if a >= b {
        lemma_div_is_ordered(b, a, g);
    }
    if b >= a {
        lemma_div_is_ordered(a, b, g);
    }
    let c = birth_counts(Birth::Parent, evicted, parent, gamma);
    assert(c.0 == a / g);
    assert(c.1 == b / g);
    assert(c.0 * g <= a < (c.0 + 1) * g) by (nonlinear_arith)
        requires
            a == g * (a / g) + a % g,
            0 <= a % g < g,
            c.0 == a / g,
    ;
    assert(c.1 * g <= b < (c.1 + 1) * g) by (nonlinear_arith)
        requires
            b == g * (b / g) + b % g,
            0 <= b % g < g,
            c.1 == b / g,
    ;
}

/// The KT estimate gives a symbol no less probability the more often the node
/// has seen it (for the same number of visits), and never less than the other
/// symbol when it was seen at least as often.
pub proof fn lemma_kt_prefers_seen(a: Node, b: Node, x: int)
    requires
        0 <= x < 2,
    ensures
        visits(a) == visits(b) && a.n[x] <= b.n[x] ==> kt_log_cond_value(a, x) <= kt_log_cond_value(b, x),
        a.n[x] >= a.n[1 - x] ==> kt_log_cond_value(a, x) >= kt_log_cond_value(a, 1 - x),
{
    if visits(a) == visits(b) && a.n[x] <= b.n[x] {
        lemma_log2_int_monotone(2 * a.n[x] + 1, 2 * b.n[x] + 1);
    }
    if a.n[x] >= a.n[1 - x] {
        lemma_log2_int_monotone(2 * a.n[1 - x] + 1, 2 * a.n[x] + 1);
    }
}

/// The other birth policies: a cold node starts empty; under Space-Saving a
/// node born of an eviction splits the evicted mass in the proportion of the
/// parent's counts (rounded down for symbol 0, the rest to symbol 1), and
/// one born in free room starts empty.
pub proof fn lemma_other_births(parent: Node, mass: u64, gamma: u32)
    requires
        mass < 0x1_0000_0000,
    ensures
        birth_counts(Birth::Cold, Some(mass), parent, gamma) == (0u32, 0u32),
        birth_counts(Birth::Cold, None, parent, gamma) == (0u32, 0u32),
        birth_counts(Birth::SpaceSaving, None, parent, gamma) == (0u32, 0u32),
        ({
            let c = birth_counts(Birth::SpaceSaving, Some(mass), parent, gamma);
            let sum = parent.n[0] + parent.n[1];
            &&& sum == 0 || mass == 0 ==> c == (0u32, 0u32)
            &&& sum > 0 && mass > 0 ==> c.0 + c.1 == mass && c.0 * sum <= mass * parent.n[0] < (c.0 + 1) * sum
        }),
{
    let sum = parent.n[0] + parent.n[1];
    if sum > 0 && mass > 0 {
        let t = mass as int;
        let n0 = parent.n[0] as int;
        let a = t * n0 / sum;
        lemma_fundamental_div_mod(t * n0, sum);
        lemma_mod_bound(t * n0, sum);
        assert(0 <= a <= t) by {
            lemma_div_pos_is_pos(t * n0, sum);
            assert(t * n0 <= t * sum) by (nonlinear_arith)
                requires
                    0 <= n0 <= sum,
                    t >= 0,
            ;
            lemma_div_is_ordered(t * n0, t * sum, sum);
            lemma_div_multiples_vanish(t, sum);
            assert(t * sum == sum * t) by (nonlinear_arith);
        }
        assert(a * sum <= t * n0 < (a + 1) * sum) by (nonlinear_arith)
            requires
                t * n0 == sum * a + (t * n0) % sum,
                0 <= (t * n0) % sum < sum,
        ;
    }
}

/// The two symbols' estimates share the denominator: their difference is
/// that of the numerators, and a node that has seen nothing gives each symbol
/// exactly half (-1 bit).
pub proof fn lemma_kt_shared_denominator(nd: Node)
    ensures
        kt_log_cond_value(nd, 0) - kt_log_cond_value(nd, 1) == log2_int_value(2 * nd.n[0] + 1) - log2_int_value(
            2 * nd.n[1] + 1,
        ),
        nd.n[0] == 0 && nd.n[1] == 0 ==> kt_log_cond_value(nd, 0) == -ONE && kt_log_cond_value(nd, 1) == -ONE,
{
    if nd.n[0] == 0 && nd.n[1] == 0 {
        crate::fixed::lemma_log2_int_pow2(0);
        crate::fixed::lemma_log2_int_pow2(1);
        vstd::arithmetic::power2::lemma2_to64();
    }
}

/// Sampled victim choice: `left` more draws of a leaf from the generator state
/// `rng`; the protected node is skipped, the first draw with the smallest key
/// wins, and the random policy takes its first usable draw. Returns the choice
/// (node and key) and the generator state afterwards.
pub open spec fn sample_pick(
    rng: u64,
    leaves: Seq<u32>,
    nodes: Seq<Node>,
    protect: u32,
    victim: Victim,
    left: nat,
    best: Option<(u32, u64)>,
) -> (Option<(u32, u64)>, u64)
    decreases left,
{
    if left == 0 {
        (best, rng)
    } else {
        let st = xorshift_state(rng);
        let j = xorshift_output(st) as int % leaves.len() as int;
        let cand = leaves[j];
        if cand == protect {
            sample_pick(st, leaves, nodes, protect, victim, (left - 1) as nat, best)
        } else {
            let key = victim_key(nodes[cand as int], victim);
            let best2 = match best {
                Some((_, bk)) => if bk <= key {
                    best
                } else {
                    Some((cand, key))
                },
                None => Some((cand, key)),
            };
            if victim == Victim::Random {
                (best2, st)
            } else {
                sample_pick(st, leaves, nodes, protect, victim, (left - 1) as nat, best2)
            }
        }
    }
}

/// The lifetime bucket of a node that lived `life` bits: ceil(log2 life) + 1,
/// at most 40; bucket 0 for a life of 0.
pub open spec fn life_bucket(life: u64) -> int {
    let k = 64 - vstd::std_specs::bits::u64_leading_zeros(life);
    if k < 40 {
        k as int
    } else {
        40
    }
}

/// What an eviction of node v with the given mass adds to the statistics:
/// one eviction, its mass, and with full statistics its lifetime.
pub open spec fn eviction_counted(before: Stats, after: Stats, mass: u64, full: bool, life: u64) -> bool {
    &&& after.evictions == vstd::wrapping::u64_specs::wrapping_add(before.evictions, 1)
    &&& after.evicted_mass == vstd::wrapping::u64_specs::wrapping_add(before.evicted_mass, mass)
    &&& full ==> after.life_sum == vstd::wrapping::u64_specs::wrapping_add(before.life_sum, life)
        && after.life@ == before.life@.update(
            life_bucket(life),
            vstd::wrapping::u64_specs::wrapping_add(before.life@[life_bucket(life)], 1),
        )
    &&& !full ==> after.life_sum == before.life_sum && after.life == before.life
}

/// The parent's slot that held v now records an eviction.
pub open spec fn slot_marked(oldp: Node, newp: Node, v: int) -> bool {
    newp.evicted_slots == (oldp.evicted_slots | if oldp.child[0] == v { 1u8 } else { 2u8 })
}

/// The generator state after i steps.
pub open spec fn rng_after(rng: u64, i: nat) -> u64
    decreases i,
{
    if i == 0 {
        rng
    } else {
        xorshift_state(rng_after(rng, (i - 1) as nat))
    }
}

/// The leaf that draw i (from 0) of a sample starting at generator state
/// `rng` lands on.
pub open spec fn drawn(rng: u64, leaves: Seq<u32>, i: nat) -> u32 {
    leaves[xorshift_output(rng_after(rng, i + 1)) as int % leaves.len() as int]
}

proof fn lemma_rng_after_shift(rng: u64, i: nat)
    ensures
        rng_after(xorshift_state(rng), i) == rng_after(rng, i + 1),
    decreases i,
{
    reveal_with_fuel(rng_after, 2);
    if i > 0 {
        lemma_rng_after_shift(rng, (i - 1) as nat);
    }
}

/// The sampled choice keeps the least key among the usable draws and among
/// the best so far, and the chosen node is a usable draw or the best so far.
proof fn lemma_pick_least(
    rng: u64,
    leaves: Seq<u32>,
    nodes: Seq<Node>,
    protect: u32,
    victim: Victim,
    left: nat,
    best: Option<(u32, u64)>,
)
    requires
        leaves.len() > 0,
        victim != Victim::Random,
        forall|k: int| 0 <= k < leaves.len() ==> #[trigger] leaves[k] < nodes.len(),
        best matches Some((c, bk)) ==> c != protect && c < nodes.len() && bk == victim_key(nodes[c as int], victim),
    ensures
        ({
            let r = sample_pick(rng, leaves, nodes, protect, victim, left, best).0;
            &&& best is Some ==> r is Some
            &&& r matches Some((v, k)) ==> {
                &&& k == victim_key(nodes[v as int], victim)
                &&& v != protect
                &&& (best matches Some((c, bk)) ==> k <= bk)
                &&& forall|i: nat| i < left && #[trigger] drawn(rng, leaves, i) != protect ==> k <= victim_key(
                    nodes[drawn(rng, leaves, i) as int],
                    victim,
                )
                &&& (best matches Some((c, bk)) && v == c) || exists|i: nat| i < left && #[trigger] drawn(rng, leaves, i) == v
            }
        }),
    decreases left,
{
    if left > 0 {
        let st = xorshift_state(rng);
        let j = xorshift_output(st) as int % leaves.len() as int;
        let cand = leaves[j];
        assert(rng_after(rng, 1) == st) by {
            reveal_with_fuel(rng_after, 2);
        }
        assert(drawn(rng, leaves, 0) == cand);
        assert forall|i: nat| #[trigger] drawn(st, leaves, i) == drawn(rng, leaves, i + 1) by {
            lemma_rng_after_shift(rng, i + 1);
        }
        let key = victim_key(nodes[cand as int], victim);
        let best2 = if cand == protect {
            best
        } else {
            match best {
                Some((_, bk)) => if bk <= key {
                    best
                } else {
                    Some((cand, key))
                },
                None => Some((cand, key)),
            }
        };
        lemma_pick_least(st, leaves, nodes, protect, victim, (left - 1) as nat, best2);
        let r = sample_pick(rng, leaves, nodes, protect, victim, left, best).0;
        assert(r == sample_pick(st, leaves, nodes, protect, victim, (left - 1) as nat, best2).0);
        if let Some((v, k)) = r {
            assert forall|i: nat| i < left && #[trigger] drawn(rng, leaves, i) != protect implies k <= victim_key(
                nodes[drawn(rng, leaves, i) as int],
                victim,
            ) by {
                if i > 0 {
                    assert(drawn(st, leaves, (i - 1) as nat) == drawn(rng, leaves, i));
                }
            }
            if !((best matches Some((c, bk)) && v == c)) {
                if best2 matches Some((c2, _)) && v == c2 && c2 == cand && cand != protect {
                    assert(drawn(rng, leaves, 0) == v);
                } else {
                    let i = choose|i: nat| i < (left - 1) as nat && #[trigger] drawn(st, leaves, i) == v;
                    assert(drawn(rng, leaves, i + 1) == v);
                }
            }
        }
    }
}

/// The least frequently used (or lowest-priority) leaf of the sample goes:
/// the evicted leaf is one of the usable draws, and under LFU it has been
/// visited no more often, under Space-Saving it has no higher priority, than
/// any usable leaf drawn in the sample.
pub proof fn lemma_victim_least(
    rng: u64,
    leaves: Seq<u32>,
    nodes: Seq<Node>,
    protect: u32,
    victim: Victim,
    sample: nat,
    v: u32,
    k: u64,
)
    requires
        leaves.len() > 0,
        victim != Victim::Random,
        forall|j: int| 0 <= j < leaves.len() ==> #[trigger] leaves[j] < nodes.len(),
        sample_pick(rng, leaves, nodes, protect, victim, sample, None).0 == Some((v, k)),
    ensures
        v != protect,
        exists|i: nat| i < sample && #[trigger] drawn(rng, leaves, i) == v,
        victim == Victim::Lfu ==> forall|i: nat|
            i < sample && #[trigger] drawn(rng, leaves, i) != protect ==> nodes[v as int].n[0] + nodes[v as int].n[1]
                <= nodes[drawn(rng, leaves, i) as int].n[0] + nodes[drawn(rng, leaves, i) as int].n[1],
        victim == Victim::Ss ==> forall|i: nat|
            i < sample && #[trigger] drawn(rng, leaves, i) != protect ==> nodes[v as int].prio
                <= nodes[drawn(rng, leaves, i) as int].prio,
{
    lemma_pick_least(rng, leaves, nodes, protect, victim, sample, None);
}

/// Under the random policy the first usable draw of the sample goes; the
/// sample finds none only when every draw hit `protect`.
pub proof fn lemma_victim_random(rng: u64, leaves: Seq<u32>, nodes: Seq<Node>, protect: u32, left: nat)
    requires
        leaves.len() > 0,
    ensures
        sample_pick(rng, leaves, nodes, protect, Victim::Random, left, None).0 matches Some((v, k)) ==> exists|i: nat|
            i < left && #[trigger] drawn(rng, leaves, i) == v && v != protect && forall|j: nat|
                j < i ==> #[trigger] drawn(rng, leaves, j) == protect,
        sample_pick(rng, leaves, nodes, protect, Victim::Random, left, None).0 is None ==> forall|j: nat|
            j < left ==> #[trigger] drawn(rng, leaves, j) == protect,
    decreases left,
{
    if left > 0 {
        let st = xorshift_state(rng);
        assert(rng_after(rng, 1) == st) by {
            reveal_with_fuel(rng_after, 2);
        }
        assert forall|i: nat| #[trigger] drawn(st, leaves, i) == drawn(rng, leaves, i + 1) by {
            lemma_rng_after_shift(rng, i + 1);
        }
        let cand = drawn(rng, leaves, 0);
        lemma_victim_random(st, leaves, nodes, protect, (left - 1) as nat);
        if cand == protect {
            let r = sample_pick(rng, leaves, nodes, protect, Victim::Random, left, None).0;
            assert(r == sample_pick(st, leaves, nodes, protect, Victim::Random, (left - 1) as nat, None).0);
            if let Some((v, k)) = r {
                let i = choose|i: nat|
                    i < (left - 1) as nat && #[trigger] drawn(st, leaves, i) == v && v != protect && forall|j: nat|
                        j < i ==> #[trigger] drawn(st, leaves, j) == protect;
                assert(drawn(rng, leaves, i + 1) == v);
                assert forall|j: nat| j < i + 1 implies #[trigger] drawn(rng, leaves, j) == protect by {
                    if j > 0 {
                        assert(drawn(st, leaves, (j - 1) as nat) == drawn(rng, leaves, j));
                    }
                }
            } else {
                assert forall|j: nat| j < left implies #[trigger] drawn(rng, leaves, j) == protect by {
                    if j > 0 {
                        assert(drawn(st, leaves, (j - 1) as nat) == drawn(rng, leaves, j));
                    }
                }
            }
        } else {
            assert(drawn(rng, leaves, 0) == cand);
        }
    }
}

/// `new` is `old` with leaf v detached from its parent p: p lost the link to v
/// (and maybe its log beta), leaf positions moved, nothing else changed.
pub open spec fn detached(old: Seq<Node>, new: Seq<Node>, v: int, p: int) -> bool {
    &&& new.len() == old.len()
    &&& 0 <= p < old.len()
    &&& old[v].parent == p
    &&& forall|i: int| 0 <= i < new.len() && i != p ==> #[trigger] new[i] == (Node {
        leaf_pos: new[i].leaf_pos,
        ..old[i]
    })
    &&& new[p].n == old[p].n
    &&& new[p].prio == old[p].prio
    &&& new[p].parent == old[p].parent
    &&& (new[p].logbeta == old[p].logbeta || new[p].logbeta == 0)
    &&& forall|b: int|
        0 <= b < 2 ==> #[trigger] new[p].child[b] == (if old[p].child[b] == v {
            0
        } else {
            old[p].child[b]
        })
    &&& new[v].leaf_pos == NONE
    &&& forall|w: int|
        0 <= w < new.len() && w != v && w != p ==> (#[trigger] new[w].leaf_pos != NONE <==> old[w].leaf_pos
            != NONE)
    &&& (new[p].leaf_pos != NONE <==> (p != 0 && childless(new[p])))
}

proof fn lemma_detach(old: Seq<Node>, new: Seq<Node>, level: Seq<int>, depth: int, v: int, p: int, t: int)
    requires
        links_ok(old, level, depth, -1),
        leaf_set_ok(old, -1),
        counts_ok(old, t),
        t >= 0,
        0 < v < old.len(),
        old[v].leaf_pos != NONE,
        detached(old, new, v, p),
    ensures
        links_ok(new, level, depth, v),
        leaf_set_ok(new, v),
        counts_ok(new, t),
{
    reveal(links_ok);
    reveal(leaf_set_ok);
    reveal(counts_ok);
    assert(childless(old[v]));
    assert(old[p].child[0] == v || old[p].child[1] == v);
    assert forall|i: int, b: int|
        0 <= i < old.len() && 0 <= b < 2 && old[i].child[b] == v implies i == p by {
        assert(old[i].child[b] != 0);
    }
    assert forall|i: int, b: int|
        0 <= i < new.len() && i != v && 0 <= b < 2 && #[trigger] new[i].child[b] != 0 implies {
        let c = new[i].child[b] as int;
        &&& c < new.len()
        &&& c != v
        &&& new[c].parent == i
        &&& level[c] == level[i] + 1
    } by {
        assert(old[i].child[b] == new[i].child[b]);
        assert(old[i].child[b] != 0);
        let c = new[i].child[b] as int;
        if c == v {
            assert(i == p);
        }
        assert(new[c].parent == old[c].parent);
    }
    assert forall|i: int| 0 < i < new.len() && i != v implies {
        let q = #[trigger] new[i].parent as int;
        &&& q < new.len()
        &&& q != v
        &&& (new[q].child[0] == i || new[q].child[1] == i)
    } by {
        let q = old[i].parent as int;
        assert(old[i].parent == new[i].parent);
        if q == v {
            if old[q].child[0] == i {
                assert(old[q].child[0] != 0);
            } else {
                assert(old[q].child[1] != 0);
            }
        }
    }
    assert forall|i: int| 0 <= i < new.len() && i != v implies #[trigger] new[i].child[0]
        != new[i].child[1] || new[i].child[0] == 0 by {
        assert(old[i].child[0] != old[i].child[1] || old[i].child[0] == 0);
    }
    assert forall|w: int| 0 <= w < new.len() implies (#[trigger] new[w].leaf_pos != NONE <==> (w != 0
        && w != v && childless(new[w]))) by {
        if w != v && w != p {
            assert(old[w].leaf_pos != NONE <==> (w != 0 && childless(old[w])));
        }
    }
    assert forall|i: int| 0 <= i < new.len() implies {
        let nd = #[trigger] new[i];
        &&& visits(nd) <= t
        &&& -logbeta_step() * t <= nd.logbeta <= logbeta_step() * t
    } by {
        assert(visits(old[i]) <= t);
        assert(logbeta_step() * t >= 0) by (nonlinear_arith)
            requires
                t >= 0,
        ;
        assert(-logbeta_step() * t <= 0) by (nonlinear_arith)
            requires
                t >= 0,
        ;
        if i == p {
            assert(visits(new[i]) == visits(old[i]));
        } else {
            assert(new[i].n == old[i].n);
            assert(new[i].logbeta == old[i].logbeta);
        }
    }
}

/// The counters a new node starts with under a birth policy: cold zeros, the
/// evicted mass split in the parent's proportion (only when born of an
/// eviction), or the parent's counters divided by gamma.
pub open spec fn birth_counts(birth: Birth, evicted_mass: Option<u64>, parent: Node, gamma: u32) -> (u32, u32) {
    match birth {
        Birth::Cold => (0, 0),
        Birth::SpaceSaving => match evicted_mass {
            Some(mass) => split_by_ratio_value(mass as int, parent),
            None => (0, 0),
        },
        Birth::Parent => ((parent.n[0] / gamma) as u32, (parent.n[1] / gamma) as u32),
    }
}

/// `total` split in the proportion of the parent's counters; nothing when
/// either is empty.
pub open spec fn split_by_ratio_value(total: int, parent: Node) -> (u32, u32) {
    let sum = parent.n[0] + parent.n[1];
    if sum == 0 || total == 0 {
        (0, 0)
    } else {
        let a = total * parent.n[0] / sum;
        (a as u32, (total - a) as u32)
    }
}

/// Splits mass `total` in the proportion of the parent's counters.
pub fn split_by_ratio(total: u64, parent: &Node) -> (r: (u32, u32))
    requires
        total < 0x1_0000_0000,
    ensures
        r == split_by_ratio_value(total as int, *parent),
        (visits(*parent) != 0 && total != 0) ==> r.0 + r.1 == total,
        r.0 + r.1 <= total,
{
    let p0 = parent.n[0] as u64;
    let p1 = parent.n[1] as u64;
    let sum = p0 + p1;
    if sum == 0 || total == 0 {
        return (0, 0);
    }
    proof {
        assert(total * p0 <= total * sum) by (nonlinear_arith)
            requires
                p0 <= sum,
        ;
        assert(total * p0 < 0x1_0000_0000 * 0x1_0000_0000) by (nonlinear_arith)
            requires
                total < 0x1_0000_0000,
                p0 < 0x1_0000_0000,
        ;
        lemma_div_is_ordered((total * p0) as int, (total * sum) as int, sum as int);
        lemma_div_by_multiple(total as int, sum as int);
    }
    let a = total * p0 / sum;
    ((a) as u32, (total - a) as u32)
}

/// Extends `v` with zeros up to length `len`.
fn pad_with_zeros(v: &mut Vec<u32>, len: usize)
    ensures
        final(v)@.len() == if old(v)@.len() < len {
            len as int
        } else {
            old(v)@.len() as int
        },
        forall|i: int| 0 <= i < old(v)@.len() ==> #[trigger] final(v)@[i] == old(v)@[i],
        forall|i: int| old(v)@.len() <= i < final(v)@.len() ==> #[trigger] final(v)@[i] == 0,
{
    let ghost v0 = v@;
    while v.len() < len
        invariant
            v@.len() >= v0.len(),
            v0.len() < len ==> v@.len() <= len,
            v0.len() >= len ==> v@.len() == v0.len(),
            forall|i: int| 0 <= i < v0.len() ==> #[trigger] v@[i] == v0[i],
            forall|i: int| v0.len() <= i < v@.len() ==> #[trigger] v@[i] == 0,
        decreases len - v@.len(),
    {
        v.push(0);
    }
}

/// Whether `x` occurs in `v`.
fn contains_u32(v: &Vec<u32>, x: u32) -> (r: bool)
    ensures
        r == v@.contains(x),
{
    let mut i: usize = 0;
    while i < v.len()
        invariant
            i <= v@.len(),
            forall|j: int| 0 <= j < i ==> v@[j] != x,
        decreases v@.len() - i,
    {
        if v[i] == x {
            return true;
        }
        i += 1;
    }
    false
}

/// The running total of the histogram up to bucket k reaches the share
/// num / den of `total`.
pub open spec fn reaches(life: Seq<u64>, total: int, num: int, den: int, k: int) -> bool {
    den * prefix_sum(life, k + 1) >= num * total
}

/// r is the first bucket whose running total reaches the share, or 0 when
/// none does.
pub open spec fn first_reaching(life: Seq<u64>, total: int, num: int, den: int, r: int) -> bool {
    &&& 0 <= r < 41
    &&& forall|j: int| 0 <= j < r ==> !#[trigger] reaches(life, total, num, den, j)
    &&& !reaches(life, total, num, den, r) ==> r == 0 && forall|j: int| 0 <= j < 41 ==> !#[trigger] reaches(life, total, num, den, j)
}

/// Sum of the first n entries.
pub open spec fn prefix_sum(s: Seq<u64>, n: int) -> int
    decreases n,
{
    if n <= 0 {
        0
    } else {
        prefix_sum(s, n - 1) + s[n - 1]
    }
}

/// Median and 90th percentile of node lifetimes from the log2 histogram: the
/// first buckets at which the running count reaches half and nine tenths of
/// the evictions (0 when none does). Precision is a factor of 2, enough for
/// the shape of the distribution.
pub fn life_quantiles(life: &[u64; 41], evictions: u64) -> (r: (usize, usize))
    requires
        prefix_sum(life@, 41) * 10 <= u64::MAX,
        evictions * 9 <= u64::MAX,
    ensures
        first_reaching(life@, evictions as int, 1, 2, r.0 as int),
        first_reaching(life@, evictions as int, 9, 10, r.1 as int),
{
    let mut acc: u64 = 0;
    let mut med: usize = 0;
    let mut p90: usize = 0;
    let mut med_found = false;
    let mut p90_found = false;
    let mut k: usize = 0;
    while k < 41
        invariant
            k <= 41,
            life@.len() == 41,
            acc == prefix_sum(life@, k as int),
            prefix_sum(life@, 41) * 10 <= u64::MAX,
            evictions * 9 <= u64::MAX,
            !med_found ==> med == 0 && forall|j: int| 0 <= j < k ==> !#[trigger] reaches(life@, evictions as int, 1, 2, j),
            med_found ==> med < k && reaches(life@, evictions as int, 1, 2, med as int) && forall|j: int|
                0 <= j < med ==> !#[trigger] reaches(life@, evictions as int, 1, 2, j),
            !p90_found ==> p90 == 0 && forall|j: int| 0 <= j < k ==> !#[trigger] reaches(life@, evictions as int, 9, 10, j),
            p90_found ==> p90 < k && reaches(life@, evictions as int, 9, 10, p90 as int) && forall|j: int|
                0 <= j < p90 ==> !#[trigger] reaches(life@, evictions as int, 9, 10, j),
        decreases 41 - k,
    {
        proof {
            lemma_prefix_mono(life@, k as int + 1, 41);
        }
        acc = acc + life[k];
        if !med_found && acc * 2 >= evictions {
            med = k;
            med_found = true;
        }
        if !p90_found && acc * 10 >= evictions * 9 {
            p90 = k;
            p90_found = true;
        }
        k += 1;
    }
    (med, p90)
}

/// Prefix sums grow with the prefix.
pub proof fn lemma_prefix_mono(s: Seq<u64>, a: int, b: int)
    requires
        0 <= a <= b <= s.len(),
    ensures
        prefix_sum(s, a) <= prefix_sum(s, b),
    decreases b - a,
{
    if a < b {
        lemma_prefix_mono(s, a, b - 1);
    }
}

/// Bit d of the history: the context symbol d steps back.
pub open spec fn hist_bit(h: u64, d: int) -> int {
    ((h >> (d as u64)) & 1u64) as int
}

/// A history bit is 0 or 1.
pub proof fn lemma_hist_bit(h: u64, d: int)
    requires
        0 <= d,
    ensures
        0 <= hist_bit(h, d) < 2,
{
    let x = h >> (d as u64);
    assert((x & 1u64) < 2) by (bit_vector);
}

/// Why a descent stopped above the full depth.
#[derive(Clone, Copy, Debug, PartialEq, Eq, Structural)]
pub enum Stop {
    /// The context reached the full depth.
    Full,
    /// The node had fewer visits than the lazy threshold.
    Lazy,
    /// The node is deterministic and deferred.
    Deterministic,
    /// The budget is exhausted and nothing could be evicted.
    Budget,
}

/// A path along the history stays valid when a node is allocated below its
/// last node: links to existing nodes do not change, and the new node extends
/// the path.
#[verifier::rlimit(100)]
proof fn lemma_alloc_keeps_path(before: Seq<Node>, after: Seq<Node>, path: Seq<u32>, idx: int, b: int, h: u64)
    requires
        path_ok(before, path),
        forall|e: int|
            0 <= e < path.len() - 1 ==> #[trigger] path[e + 1] == before[path[e] as int].child[hist_bit(h, e)],
        b == hist_bit(h, path.len() - 1),
        0 <= b < 2,
        before[path[path.len() - 1] as int].child[b] == 0,
        before.len() <= after.len(),
        0 < idx < after.len(),
        idx != path[path.len() - 1],
        idx < before.len() ==> childless(before[idx]),
        forall|i: int, bb: int|
            0 <= i < before.len() && 0 <= bb < 2 && #[trigger] before[i].child[bb] != 0
                && before[i].child[bb] != idx ==> after[i].child[bb] == before[i].child[bb],
        after[path[path.len() - 1] as int].child[b] == idx,
    ensures
        path_ok(after, path.push(idx as u32)),
        forall|e: int|
            0 <= e < path.len() ==> #[trigger] path.push(idx as u32)[e + 1] == after[path.push(
                idx as u32,
            )[e] as int].child[hist_bit(h, e)],
{
    let np = path.push(idx as u32);
    let k = path.len() - 1;
    assert forall|e: int| 0 <= e <= k implies #[trigger] path[e] != idx by {
        if e < k {
            lemma_hist_bit(h, e);
            assert(path[e + 1] == before[path[e] as int].child[hist_bit(h, e)]);
            assert(path[e + 1] != 0);
            assert(path[e] < before.len());
            assert(!childless(before[path[e] as int]));
        }
    }
    assert forall|e: int| 0 <= e < path.len() implies #[trigger] np[e + 1] == after[np[e] as int].child[hist_bit(h, e)] by {
        lemma_hist_bit(h, e);
        if e < k {
            assert(path[e + 1] == before[path[e] as int].child[hist_bit(h, e)]);
            assert(path[e + 1] != idx);
            assert(path[e + 1] != 0);
            assert(path[e] < before.len());
        }
    }
    assert forall|d: int| 0 <= d < np.len() implies #[trigger] np[d] < after.len() by {
        if d < path.len() {
            assert(path[d] < before.len());
        }
    }
    assert forall|d: int| 0 < d < np.len() implies #[trigger] np[d] != 0 && (after[np[d - 1] as int].child[0]
        == np[d] || after[np[d - 1] as int].child[1] == np[d]) by {
        let e = d - 1;
        lemma_hist_bit(h, e);
        assert(np[e + 1] == after[np[e] as int].child[hist_bit(h, e)]);
    }
}

/// A path along the history extends by the existing child of its last node.
#[verifier::rlimit(30)]
proof fn lemma_extend_path(nodes: Seq<Node>, path: Seq<u32>, c: u32, h: u64)
    requires
        path_ok(nodes, path),
        forall|e: int|
            0 <= e < path.len() - 1 ==> #[trigger] path[e + 1] == nodes[path[e] as int].child[hist_bit(h, e)],
        0 <= hist_bit(h, path.len() - 1) < 2,
        c == nodes[path[path.len() - 1] as int].child[hist_bit(h, path.len() - 1)],
        c != 0,
        c < nodes.len(),
    ensures
        path_ok(nodes, path.push(c)),
        forall|e: int|
            0 <= e < path.len() ==> #[trigger] path.push(c)[e + 1] == nodes[path.push(c)[e] as int].child[hist_bit(h, e)],
{
    let np = path.push(c);
    let k = path.len() - 1;
    assert forall|d: int| 0 < d < np.len() implies #[trigger] np[d] != 0 && (nodes[np[d - 1] as int].child[0]
        == np[d] || nodes[np[d - 1] as int].child[1] == np[d]) by {
        let e = d - 1;
        lemma_hist_bit(h, e);
        if d <= k {
            assert(np[d] == path[d]);
            assert(np[e] == path[e]);
            assert(path[e + 1] == nodes[path[e] as int].child[hist_bit(h, e)]);
        } else {
            assert(np[e] == path[k]);
        }
    }
    assert forall|d: int| 0 <= d < np.len() implies #[trigger] np[d] < nodes.len() by {
        if d <= k {
            assert(np[d] == path[d]);
        }
    }
    assert forall|e: int| 0 <= e < path.len() implies #[trigger] np[e + 1] == nodes[np[e] as int].child[hist_bit(h, e)] by {
        assert(np[e] == path[e]);
        if e < k {
            assert(np[e + 1] == path[e + 1]);
        }
    }
}

/// A node keeps its counters, its priority and its parent.
pub open spec fn same_place(a: Node, b: Node) -> bool {
    a.n[0] == b.n[0] && a.n[1] == b.n[1] && a.prio == b.prio && a.parent == b.parent
}

/// Counter x after n more wrapping increments.
pub open spec fn wadd(x: u64, n: int) -> u64 {
    ((x + n) % 0x1_0000_0000_0000_0000) as u64
}

/// A wrapping addition continues the count.
pub proof fn lemma_wadd(x: u64, n: int, m: u64)
    requires
        n >= 0,
    ensures
        vstd::wrapping::u64_specs::wrapping_add(wadd(x, n), m) == wadd(x, n + m),
{
    let big: int = 0x1_0000_0000_0000_0000;
    let a = (x + n) % big;
    vstd::arithmetic::div_mod::lemma_add_mod_noop(x + n, m as int, big);
    vstd::arithmetic::div_mod::lemma_mod_self_0(big);
    vstd::arithmetic::div_mod::lemma_mod_bound(x + n, big);
    vstd::arithmetic::div_mod::lemma_mod_bound(m as int, big);
    vstd::arithmetic::div_mod::lemma_small_mod(m as nat, big as nat);
    if a + m >= big {
        vstd::arithmetic::div_mod::lemma_mod_sub_multiples_vanish(a + m - big, big);
        vstd::arithmetic::div_mod::lemma_small_mod((a + m - big) as nat, big as nat);
    } else {
        vstd::arithmetic::div_mod::lemma_small_mod((a + m) as nat, big as nat);
    }
}

/// Length of the prefix of the path that followed links already in the
/// arena `o` before the descent.
pub open spec fn followed(o: Seq<Node>, path: Seq<u32>, h: u64) -> int
    decreases path.len(),
{
    if path.len() <= 1 {
        path.len() as int
    } else {
        let f = followed(o, path.drop_last(), h);
        let k = path.len() - 1;
        if f == k && 0 <= path[k - 1] < o.len() && path[k] != 0 && path[k] == o[path[k - 1] as int].child[hist_bit(
            h,
            k - 1,
        )] {
            path.len() as int
        } else {
            f
        }
    }
}

/// Position k of a descent's path holds a node the descent created as the
/// child of the node above, with the birth policy's counters and the
/// Space-Saving priority. An index inside the old arena `o` was taken by
/// evicting that old leaf (whose counters and priority count), one beyond
/// it was appended.
pub open spec fn born_at(o: Seq<Node>, now: Seq<Node>, path: Seq<u32>, k: int, birth: Birth, gamma: u32) -> bool {
    let i = path[k] as int;
    let ev = i < o.len();
    let born = birth_counts(birth, if ev { Some(visits(o[i]) as u64) } else { None }, now[path[k - 1] as int], gamma);
    &&& k >= 1
    &&& now[i].n[0] == born.0
    &&& now[i].n[1] == born.1
    &&& now[i].prio == vstd::wrapping::u32_specs::wrapping_add(if ev { o[i].prio } else { 0u32 }, 1)
    &&& now[i].parent == path[k - 1]
    &&& now[i].logbeta == 0
}

/// Positions from s on that took an old node by eviction: how many, and the
/// bits those nodes had seen.
pub open spec fn evicted_on(o: Seq<Node>, path: Seq<u32>, s: int) -> (nat, nat)
    decreases path.len(),
{
    if path.len() == 0 || path.len() <= s {
        (0, 0)
    } else {
        let r = evicted_on(o, path.drop_last(), s);
        let i = path.last() as int;
        if i < o.len() {
            (r.0 + 1, r.1 + visits(o[i]) as nat)
        } else {
            r
        }
    }
}

/// What a descent did to the nodes of its path: those above position s
/// followed links of the old arena `o` and kept their counters, priority
/// and parent; from s on it created every node, first appending to the
/// arena, then evicting old leaves.
pub open spec fn grown(o: Seq<Node>, now: Seq<Node>, path: Seq<u32>, s: int, h: u64, birth: Birth, gamma: u32) -> bool {
    &&& 1 <= s <= path.len()
    &&& forall|k: int| 0 <= k < s ==> 0 <= #[trigger] path[k] < o.len() && same_place(now[path[k] as int], o[path[k] as int])
    &&& forall|k: int| s <= k < path.len() ==> #[trigger] born_at(o, now, path, k, birth, gamma)
    &&& forall|j: int| 0 <= j < path.len() - s && #[trigger] path[s + j] >= o.len() ==> path[s + j] == o.len() + j
    &&& now.len() == o.len() + (path.len() - s - evicted_on(o, path, s).0)
}

/// Following an existing link before anything was created extends the part
/// of the path that followed old links.
proof fn lemma_grow_follow(o: Seq<Node>, path: Seq<u32>, c: u32, h: u64, birth: Birth, gamma: u32)
    requires
        path.len() >= 1,
        followed(o, path, h) == path.len(),
        grown(o, o, path, path.len() as int, h, birth, gamma),
        0 <= path.last() < o.len(),
        c != 0,
        c < o.len(),
        c == o[path.last() as int].child[hist_bit(h, path.len() - 1)],
    ensures
        followed(o, path.push(c), h) == path.len() + 1,
        grown(o, o, path.push(c), path.len() + 1int, h, birth, gamma),
{
    let np = path.push(c);
    assert(np.drop_last() == path);
    assert(np[path.len() - 1] == path.last());
    assert forall|k: int| 0 <= k < path.len() + 1 implies 0 <= #[trigger] np[k] < o.len() && same_place(o[np[k] as int], o[np[k] as int]) by {
        if k < path.len() {
            assert(np[k] == path[k]);
        }
    }
    assert(evicted_on(o, np, np.len() as int) == (0nat, 0nat));
    assert(evicted_on(o, path, path.len() as int) == (0nat, 0nat));
}

/// Creating a node below the path extends what the descent created.
#[verifier::rlimit(100)]
proof fn lemma_grow_alloc(
    o: Seq<Node>,
    a: Seq<Node>,
    f: Seq<Node>,
    path: Seq<u32>,
    idx: u32,
    h: u64,
    birth: Birth,
    gamma: u32,
    lt_cap: bool,
    cap: int,
)
    requires
        path.len() >= 1,
        a.len() <= cap,
        lt_cap <==> a.len() < cap,
        evicted_on(o, path, followed(o, path, h)).0 > 0 ==> a.len() == cap,
        grown(o, a, path, followed(o, path, h), h, birth, gamma),
        followed(o, path, h) == path.len() ==> a == o,
        forall|i: int| o.len() <= i < a.len() ==> #[trigger] path.contains(i as u32),
        forall|k: int| 0 <= k < path.len() ==> #[trigger] path[k] < a.len(),
        forall|k: int| 0 <= k < path.len() - 1 ==> !#[trigger] childless(a[path[k] as int]),
        a[path.last() as int].child[hist_bit(h, path.len() - 1)] == 0,
        forall|i: int| 0 <= i < o.len() && !path.contains(i as u32) ==> same_place(#[trigger] a[i], o[i]),
        a.len() >= o.len(),
        idx != 0,
        lt_cap ==> idx == a.len() && f.len() == a.len() + 1,
        !lt_cap ==> idx < a.len() && f.len() == a.len() && childless(a[idx as int]) && idx != path.last(),
        ({
            let born = birth_counts(
                birth,
                if lt_cap { None } else { Some(visits(a[idx as int]) as u64) },
                a[path.last() as int],
                gamma,
            );
            f[idx as int].n[0] == born.0 && f[idx as int].n[1] == born.1
        }),
        f[idx as int].prio == vstd::wrapping::u32_specs::wrapping_add(if lt_cap { 0u32 } else { a[idx as int].prio }, 1),
        f[idx as int].parent == path.last(),
        f[idx as int].logbeta == 0,
        forall|i: int| 0 <= i < a.len() && i != idx ==> (#[trigger] f[i]).n == a[i].n && f[i].prio == a[i].prio
            && f[i].parent == a[i].parent,
        forall|i: int| 0 <= i < a.len() && i != idx ==> #[trigger] f[i].logbeta == a[i].logbeta || f[i].logbeta == 0,
    ensures
        followed(o, path.push(idx), h) == followed(o, path, h),
        grown(o, f, path.push(idx), followed(o, path, h), h, birth, gamma),
        forall|i: int| o.len() <= i < f.len() ==> #[trigger] path.push(idx).contains(i as u32),
        !lt_cap ==> idx < o.len(),
        evicted_on(o, path.push(idx), followed(o, path, h)).0 > 0 ==> f.len() == cap,
        evicted_on(o, path.push(idx), followed(o, path, h)) == (if lt_cap {
            evicted_on(o, path, followed(o, path, h))
        } else {
            let e = evicted_on(o, path, followed(o, path, h));
            (e.0 + 1, e.1 + visits(o[idx as int]) as nat)
        }),
{
    let s = followed(o, path, h);
    let np = path.push(idx);
    let k = path.len() as int;
    let cur = path.last();
    assert(np.drop_last() == path);
    assert(np[k - 1] == cur);
    assert(np[k] == idx);
    lemma_hist_bit(h, k - 1);
    // the new link was not there before
    if s == k {
        assert(a == o);
        assert(o[cur as int].child[hist_bit(h, k - 1)] == 0);
    }
    assert(followed(o, np, h) == s);
    // idx was not on the path
    assert(!path.contains(idx)) by {
        if path.contains(idx) {
            let j = choose|j: int| 0 <= j < path.len() && path[j] == idx;
            if !lt_cap {
                if j < k - 1 {
                    assert(!childless(a[path[j] as int]));
                }
            }
        }
    }
    if !lt_cap {
        assert(idx < o.len()) by {
            if idx >= o.len() {
                assert(path.contains((idx as int) as u32));
            }
        }
        assert(same_place(a[idx as int], o[idx as int]));
        assert(visits(a[idx as int]) == visits(o[idx as int]));
        assert(a[idx as int].prio == o[idx as int].prio);
    }
    assert(evicted_on(o, np, s) == (if lt_cap {
        evicted_on(o, path, s)
    } else {
        let e = evicted_on(o, path, s);
        (e.0 + 1, e.1 + visits(o[idx as int]) as nat)
    }));
    assert forall|j: int| 0 <= j < path.len() implies np[j] != idx by {
        assert(np[j] == path[j]);
    }
    assert forall|q: int| 0 <= q < s implies 0 <= #[trigger] np[q] < o.len() && same_place(f[np[q] as int], o[np[q] as int]) by {
        assert(np[q] == path[q]);
        assert(0 <= path[q] < o.len() && same_place(a[path[q] as int], o[path[q] as int]));
        assert(path[q] < a.len());
        assert(f[path[q] as int].n == a[path[q] as int].n);
    }
    assert forall|q: int| s <= q < np.len() implies #[trigger] born_at(o, f, np, q, birth, gamma) by {
        if q < k {
            assert(np[q] == path[q]);
            assert(born_at(o, a, path, q, birth, gamma));
            assert(np[q - 1] == path[q - 1]);
            assert(path[q - 1] < a.len() && path[q] < a.len());
            assert(f[path[q - 1] as int].n == a[path[q - 1] as int].n);
            assert(f[path[q] as int].n == a[path[q] as int].n);
        } else {
            assert(q == k);
            assert(f[cur as int].n == a[cur as int].n);
        }
    }
    assert forall|j: int| 0 <= j < np.len() - s && #[trigger] np[s + j] >= o.len() implies np[s + j] == o.len() + j by {
        if s + j < k {
            assert(np[s + j] == path[s + j]);
        } else {
            assert(lt_cap);
            // an eviction would have left the arena full, and nothing is
            // appended to a full arena
            assert(evicted_on(o, path, s).0 == 0);
        }
    }
    assert forall|i: int| o.len() <= i < f.len() implies #[trigger] np.contains(i as u32) by {
        if i < a.len() {
            assert(path.contains(i as u32));
            let j = choose|j: int| 0 <= j < path.len() && path[j] == i as u32;
            assert(np[j] == i as u32);
        } else {
            assert(np[k] == i as u32);
        }
    }
}

/// The larger of two counts.
pub open spec fn max_int(a: int, b: int) -> int {
    if a >= b {
        a
    } else {
        b
    }
}

/// Whether the first node a descent created went into a slot of an old node
/// that had already lost a child there: a repeated creation.
pub open spec fn rec_bit(o: Seq<Node>, path: Seq<u32>, h: u64, s: int) -> int {
    if 1 <= s < path.len() && o[path[s - 1] as int].evicted_slots & (1u8 << (hist_bit(h, s - 1) as u8)) != 0 {
        1
    } else {
        0
    }
}

/// What a descent has done so far, against the arena `o` and statistics
/// `os` it started from: the path grew as `grown` says, and the statistics
/// count each creation, each eviction with the bits it lost, and the peak
/// size of the arena.
pub open spec fn grown_state(
    o: Seq<Node>,
    os: Stats,
    now: Seq<Node>,
    ns: Stats,
    path: Seq<u32>,
    h: u64,
    birth: Birth,
    gamma: u32,
    cap: int,
    full: bool,
) -> bool {
    let s = followed(o, path, h);
    let e = evicted_on(o, path, s);
    &&& grown(o, now, path, s, h, birth, gamma)
    &&& s == path.len() ==> now == o
    &&& s < path.len() ==> childless(now[path.last() as int])
    &&& forall|i: int| o.len() <= i < now.len() ==> #[trigger] path.contains(i as u32)
    &&& e.0 > 0 ==> now.len() == cap
    &&& ns.creations == wadd(os.creations, path.len() - s)
    &&& ns.recreations == wadd(os.recreations, rec_bit(o, path, h, s))
    &&& s < path.len() ==> now[path.last() as int].evicted_slots == 0
    &&& ns.evictions == wadd(os.evictions, e.0 as int)
    &&& ns.evicted_mass == wadd(os.evicted_mass, e.1 as int)
    &&& ns.peak_nodes == (if s < path.len() {
        max_int(os.peak_nodes as int, now.len() as int)
    } else {
        os.peak_nodes as int
    })
    &&& !full ==> ns.life == os.life && ns.life_sum == os.life_sum
}

/// The state record after following an existing link.
proof fn lemma_state_follow(
    o: Seq<Node>,
    os: Stats,
    ns: Stats,
    path: Seq<u32>,
    c: u32,
    h: u64,
    birth: Birth,
    gamma: u32,
    cap: int,
    full: bool,
)
    requires
        grown_state(o, os, o, ns, path, h, birth, gamma, cap, full),
        path.len() >= 1,
        followed(o, path, h) == path.len(),
        0 <= path.last() < o.len(),
        c != 0,
        c < o.len(),
        c == o[path.last() as int].child[hist_bit(h, path.len() - 1)],
    ensures
        grown_state(o, os, o, ns, path.push(c), h, birth, gamma, cap, full),
{
    lemma_grow_follow(o, path, c, h, birth, gamma);
    let np = path.push(c);
    assert(rec_bit(o, np, h, np.len() as int) == 0);
    assert(rec_bit(o, path, h, path.len() as int) == 0);
    assert(evicted_on(o, np, np.len() as int) == (0nat, 0nat));
    assert(evicted_on(o, path, path.len() as int) == (0nat, 0nat));
}

/// The state record after creating a node below the path.
#[verifier::rlimit(60)]
proof fn lemma_state_alloc(
    o: Seq<Node>,
    os: Stats,
    a: Seq<Node>,
    as_: Stats,
    f: Seq<Node>,
    fs: Stats,
    path: Seq<u32>,
    idx: u32,
    h: u64,
    birth: Birth,
    gamma: u32,
    cap: int,
    full: bool,
    lt_cap: bool,
    life: u64,
)
    requires
        path.len() >= 1,
        grown_state(o, os, a, as_, path, h, birth, gamma, cap, full),
        forall|k: int| 0 <= k < path.len() ==> #[trigger] path[k] < a.len(),
        forall|k: int| 0 <= k < path.len() - 1 ==> !#[trigger] childless(a[path[k] as int]),
        a[path.last() as int].child[hist_bit(h, path.len() - 1)] == 0,
        forall|i: int| 0 <= i < o.len() && !path.contains(i as u32) ==> same_place(#[trigger] a[i], o[i]),
        a.len() >= o.len(),
        a.len() <= cap,
        lt_cap <==> a.len() < cap,
        idx != 0,
        lt_cap ==> idx == a.len() && f.len() == a.len() + 1,
        !lt_cap ==> idx < a.len() && f.len() == a.len() && childless(a[idx as int]) && idx != path.last(),
        ({
            let born = birth_counts(
                birth,
                if lt_cap { None } else { Some(visits(a[idx as int]) as u64) },
                a[path.last() as int],
                gamma,
            );
            f[idx as int].n[0] == born.0 && f[idx as int].n[1] == born.1
        }),
        f[idx as int].prio == vstd::wrapping::u32_specs::wrapping_add(if lt_cap { 0u32 } else { a[idx as int].prio }, 1),
        f[idx as int].parent == path.last(),
        f[idx as int].logbeta == 0,
        childless(f[idx as int]),
        forall|i: int| 0 <= i < a.len() && i != idx ==> (#[trigger] f[i]).n == a[i].n && f[i].prio == a[i].prio
            && f[i].parent == a[i].parent,
        forall|i: int| 0 <= i < a.len() && i != idx ==> #[trigger] f[i].logbeta == a[i].logbeta || f[i].logbeta == 0,
        fs.creations == vstd::wrapping::u64_specs::wrapping_add(as_.creations, 1),
        fs.recreations == (if a[path.last() as int].evicted_slots & (1u8 << (hist_bit(h, path.len() - 1) as u8)) != 0 {
            vstd::wrapping::u64_specs::wrapping_add(as_.recreations, 1)
        } else {
            as_.recreations
        }),
        f[idx as int].evicted_slots == 0,
        fs.peak_nodes == (if f.len() > as_.peak_nodes {
            f.len() as int
        } else {
            as_.peak_nodes as int
        }),
        lt_cap ==> fs.evictions == as_.evictions && fs.evicted_mass == as_.evicted_mass && fs.life == as_.life
            && fs.life_sum == as_.life_sum,
        !lt_cap ==> eviction_counted(as_, fs, visits(a[idx as int]) as u64, full, life),
    ensures
        grown_state(o, os, f, fs, path.push(idx), h, birth, gamma, cap, full),
{
    let s = followed(o, path, h);
    lemma_grow_alloc(o, a, f, path, idx, h, birth, gamma, lt_cap, cap);
    let np = path.push(idx);
    assert(followed(o, np, h) == s);
    let e = evicted_on(o, path, s);
    lemma_wadd(os.creations, path.len() - s, 1);
    assert(np.last() == idx);
    if !lt_cap {
        assert(visits(a[idx as int]) == visits(o[idx as int]));
        lemma_wadd(os.evictions, e.0 as int, 1);
        lemma_wadd(os.evicted_mass, e.1 as int, visits(a[idx as int]) as u64);
    }
    if s == path.len() {
        assert(a == o);
        assert(np[s - 1] == path.last());
        let big: int = 0x1_0000_0000_0000_0000;
        vstd::arithmetic::div_mod::lemma_small_mod(os.recreations as nat, big as nat);
        lemma_wadd(os.recreations, 0, 1);
    } else {
        let z = a[path.last() as int].evicted_slots;
        let sh = 1u8 << (hist_bit(h, path.len() - 1) as u8);
        assert(z == 0);
        assert(0u8 & sh == 0) by (bit_vector);
        assert(np[s - 1] == path[s - 1]);
    }
}

/// What a descent from `before` leaves in `after`: a path from the root along
/// the history of `before`, down to where the descent stopped, with the stop
/// counted. The nodes of the path that existed keep their counters, the
/// created ones are born by the policy (`grown_state`), and the statistics
/// count creations, repeated creations, evictions and their mass; nodes off
/// the path keep their counters, priority and parent. Nothing but the arena,
/// the leaf list and those statistics changes.
pub open spec fn descended(before: Ctw, after: Ctw, path: Seq<u32>, stop: Stop) -> bool {
    let h = before.spec_hist();
    let nodes = after.arena();
    let last = nodes[path[path.len() - 1] as int];
    &&& path_ok(nodes, path)
    &&& path.len() <= before.spec_depth() + 1
    &&& nodes.len() >= before.arena().len()
    &&& grown_state(
        before.arena(),
        before.spec_stats(),
        nodes,
        after.spec_stats(),
        path,
        h,
        before.settings().birth,
        before.settings().gamma,
        before.spec_cap(),
        before.spec_stats_full(),
    )
    &&& forall|i: int|
        0 <= i < before.arena().len() && !path.contains(i as u32) ==> same_place(#[trigger] nodes[i], before.arena()[i])
    &&& forall|i: int|
        0 <= i < before.arena().len() && !path.contains(i as u32) ==> #[trigger] nodes[i].logbeta == before.arena()[i].logbeta
            || (before.settings().beta_reset && nodes[i].logbeta == 0)
    &&& forall|i: int, b: int|
        0 <= i < before.arena().len() && 0 <= b < 2 && #[trigger] before.arena()[i].child[b] != 0 && !path.contains(
            before.arena()[i].child[b],
        ) ==> nodes[i].child[b] == before.arena()[i].child[b]
    &&& forall|d: int|
        0 <= d < path.len() - 1 ==> #[trigger] path[d + 1] == nodes[path[d] as int].child[hist_bit(h, d)]
    &&& (stop == Stop::Full) <==> path.len() == before.spec_depth() + 1
    &&& stop != Stop::Full ==> last.child[hist_bit(h, path.len() - 1)] == 0
    &&& stop == Stop::Lazy ==> visits(last) < before.settings().lazy_k
    &&& stop == Stop::Deterministic ==> {
        &&& before.settings().defer_det
        &&& last.n[0] == 0 || last.n[1] == 0
        &&& visits(last) >= before.settings().det_k
        &&& visits(last) >= before.settings().lazy_k
    }
    &&& stop == Stop::Budget ==> nodes.len() == before.spec_cap() && forall|k: int|
        0 <= k < after.leaf_list().len() ==> #[trigger] after.leaf_list()[k] == path[path.len() - 1]
    &&& after.spec_stats().trunc_lazy == before.spec_stats().trunc_lazy + (if stop == Stop::Lazy {
        1int
    } else {
        0
    })
    &&& after.spec_stats().trunc_det == before.spec_stats().trunc_det + (if stop == Stop::Deterministic {
        1int
    } else {
        0
    })
    &&& after.spec_stats().trunc_budget == before.spec_stats().trunc_budget + (if stop == Stop::Budget {
        1int
    } else {
        0
    })
    &&& after.spec_t() == before.spec_t()
    &&& after.spec_hist() == before.spec_hist()
    &&& after.spec_codelen() == before.spec_codelen()
    &&& after.settings() == before.settings()
    &&& after.spec_depth() == before.spec_depth()
    &&& after.spec_cap() == before.spec_cap()
    &&& after.spec_occ_every() == before.spec_occ_every()
    &&& after.spec_stats().occupancy@ == before.spec_stats().occupancy@
    &&& after.spec_stats_full() == before.spec_stats_full()
}

/// A node after counting symbol `x`: its counter for `x` and its priority
/// grow by one; log beta aside, nothing else changes.
pub open spec fn counted(before: Node, after: Node, x: int) -> bool {
    &&& after.n[x] == before.n[x] + 1
    &&& after.n[1 - x] == before.n[1 - x]
    &&& after.prio == vstd::wrapping::u32_specs::wrapping_add(before.prio, 1)
    &&& after == (Node { n: after.n, prio: after.prio, logbeta: after.logbeta, ..before })
}

/// The statistics agree but for the occupancy samples.
pub open spec fn same_counters(a: Stats, b: Stats) -> bool {
    &&& a.evictions == b.evictions
    &&& a.creations == b.creations
    &&& a.recreations == b.recreations
    &&& a.evicted_mass == b.evicted_mass
    &&& a.trunc_budget == b.trunc_budget
    &&& a.trunc_lazy == b.trunc_lazy
    &&& a.trunc_det == b.trunc_det
    &&& a.peak_nodes == b.peak_nodes
    &&& a.life == b.life
    &&& a.life_sum == b.life_sum
}

/// What counting symbol `x` along `path` does to `before`: the log beta values
/// above the deepest node take their new values, every node of the path counts
/// `x`, the code length grows by -log2 r, the history takes `x`, the clock
/// advances, and an occupancy sample is taken every `occ_every` bits.
pub open spec fn accounted(before: Ctw, after: Ctw, path: Seq<u32>, x: int) -> bool {
    let k = path.len() - 1;
    let t1 = before.spec_t() + 1;
    let nb = before.arena();
    let na = after.arena();
    &&& na.len() == nb.len()
    &&& forall|d: int| 0 <= d < path.len() ==> counted(nb[path[d] as int], #[trigger] na[path[d] as int], x)
    &&& forall|d: int|
        0 <= d < k ==> #[trigger] na[path[d] as int].logbeta == walked_logbeta(nb, path, x, d)
    &&& na[path[k] as int].logbeta == nb[path[k] as int].logbeta
    &&& forall|i: int| 0 <= i < nb.len() && !path.contains(i as u32) ==> #[trigger] na[i] == nb[i]
    &&& after.spec_codelen() == before.spec_codelen() - walk_value(nb, path, x, 0)
    &&& after.spec_hist() == ((before.spec_hist() << 1u64) | (x as u64))
    &&& after.spec_t() == t1
    &&& after.spec_stats().occupancy@ == if before.spec_occ_every() != 0 && t1 % (before.spec_occ_every() as int) == 0 {
        before.spec_stats().occupancy@.push(
            (t1 as u64, nb.len() as u32, before.leaf_list().len() as u32, before.spec_stats().evictions),
        )
    } else {
        before.spec_stats().occupancy@
    }
    &&& same_counters(after.spec_stats(), before.spec_stats())
    &&& after.leaf_list() == before.leaf_list()
    &&& after.settings() == before.settings()
    &&& after.spec_depth() == before.spec_depth()
    &&& after.spec_cap() == before.spec_cap()
    &&& after.spec_rng() == before.spec_rng()
    &&& after.spec_occ_every() == before.spec_occ_every()
    &&& after.spec_stats_full() == before.spec_stats_full()
}

/// log2 (r(0) + r(1)) for the path: zero when the predictor gives a distribution.
pub open spec fn sum_log(nodes: Seq<Node>, path: Seq<u32>) -> int {
    let r0 = walk_value(nodes, path, 0, 0);
    let r1 = walk_value(nodes, path, 1, 0);
    let hi = if r0 >= r1 { r0 } else { r1 };
    let lo = if r0 >= r1 { r1 } else { r0 };
    hi + log2_1p_exp2_value(lo - hi)
}

/// Rounding of the tables accumulated along a path of the given length.
pub open spec fn sum_tolerance(path_len: int) -> int {
    (path_len + 2) * 64
}

/// The two update ratios of the path sum to one within the tolerance.
pub open spec fn sum_ok(nodes: Seq<Node>, path: Seq<u32>) -> bool {
    -sum_tolerance(path.len() as int) <= sum_log(nodes, path) <= sum_tolerance(path.len() as int)
}

/// The report of a failed sum check on the path.
pub open spec fn sum_error(nodes: Seq<Node>, path: Seq<u32>) -> SumError {
    SumError {
        total: sum_log(nodes, path) as i64,
        tol: sum_tolerance(path.len() as int) as i64,
        path_len: path.len() as usize,
    }
}

/// r(0) + r(1) is not 1: log2 of the sum, the tolerance and the path length.
#[derive(Clone, Copy, Debug, PartialEq, Eq, Structural)]
pub struct SumError {
    pub total: i64,
    pub tol: i64,
    pub path_len: usize,
}

/// A violated invariant of the structure.
#[derive(Clone, Copy, Debug, PartialEq, Eq, Structural)]
pub enum InvariantError {
    /// More nodes than the budget.
    OverBudget { nodes: usize, cap: usize },
    /// A child index outside the arena.
    ChildOutside { node: usize, child: u32 },
    /// A child whose parent is not the node that links it.
    WrongParent { child: u32, node: usize },
    /// A childless node other than the root missing from the leaf list.
    LeafNotListed { node: usize },
    /// A node with children, or the root, listed as a leaf.
    ListedNotLeaf { node: usize },
    /// The leaf list is not as long as the number of leaves.
    LeafListOutOfSync { listed: usize, counted: usize },
}

/// Node i is a leaf of the tree: not the root, no children, not free.
pub open spec fn counted_leaf(nodes: Seq<Node>, free: Seq<u32>, i: int) -> bool {
    &&& !free.contains(i as u32)
    &&& i != 0
    &&& childless(nodes[i])
}

/// The number of leaves among the first n nodes.
pub open spec fn count_leaves(nodes: Seq<Node>, free: Seq<u32>, n: int) -> nat
    decreases n,
{
    if n <= 0 {
        0
    } else {
        count_leaves(nodes, free, n - 1) + if counted_leaf(nodes, free, n - 1) {
            1nat
        } else {
            0nat
        }
    }
}

/// The children of node i lie in the arena and point back to it, and it is
/// listed exactly when it is a leaf.
pub open spec fn node_ok(nodes: Seq<Node>, i: int) -> bool {
    &&& forall|b: int|
        0 <= b < 2 && #[trigger] nodes[i].child[b] != 0 ==> nodes[i].child[b] < nodes.len()
            && nodes[nodes[i].child[b] as int].parent == i as u32
    &&& (nodes[i].leaf_pos != NONE <==> (i != 0 && childless(nodes[i])))
}

/// The structure passes the check: within budget, every node that is not free
/// is consistent, and the leaf list is as long as the number of leaves.
pub open spec fn structure_ok(nodes: Seq<Node>, free: Seq<u32>, leaves_len: int, cap: int) -> bool {
    &&& nodes.len() <= cap
    &&& forall|i: int| 0 <= i < nodes.len() && !free.contains(i as u32) ==> #[trigger] node_ok(nodes, i)
    &&& count_leaves(nodes, free, nodes.len() as int) == leaves_len
}

/// The listed nodes among the first n.
spec fn listed_below(nodes: Seq<Node>, n: int) -> Set<int> {
    Set::new(|v: int| 0 <= v < n && nodes[v].leaf_pos != NONE)
}

/// With nothing free, the leaves counted among the first n nodes are the
/// listed ones.
proof fn lemma_count_listed(nodes: Seq<Node>, n: int)
    requires
        leaf_set_ok(nodes, -1),
        0 <= n <= nodes.len(),
    ensures
        listed_below(nodes, n).finite(),
        count_leaves(nodes, Seq::empty(), n) == listed_below(nodes, n).len(),
    decreases n,
{
    reveal(leaf_set_ok);
    if n == 0 {
        assert(listed_below(nodes, 0) =~= Set::empty());
    } else {
        lemma_count_listed(nodes, n - 1);
        let prev = listed_below(nodes, n - 1);
        assert(!Seq::<u32>::empty().contains((n - 1) as u32));
        if nodes[n - 1].leaf_pos != NONE {
            assert(listed_below(nodes, n) =~= prev.insert(n - 1));
        } else {
            assert(listed_below(nodes, n) =~= prev);
        }
    }
}

/// In a well-formed arena the leaf list is as long as the number of leaves.
proof fn lemma_leaf_list_complete(nodes: Seq<Node>, leaves: Seq<u32>)
    requires
        leaf_index_ok(nodes, leaves),
        leaf_set_ok(nodes, -1),
        nodes.len() <= NONE,
    ensures
        count_leaves(nodes, Seq::empty(), nodes.len() as int) == leaves.len(),
{
    reveal(leaf_index_ok);
    lemma_count_listed(nodes, nodes.len() as int);
    assert(leaves.no_duplicates()) by {
        assert forall|p: int, q: int| 0 <= p < leaves.len() && 0 <= q < leaves.len() && p != q implies leaves[p]
            != leaves[q] by {
            let vp = leaves[p] as int;
            let vq = leaves[q] as int;
            assert(nodes[vp].leaf_pos == p);
            assert(nodes[vq].leaf_pos == q);
        }
    }
    leaves.unique_seq_to_set();
    let mapped = leaves.map_values(|v: u32| v as int);
    assert(mapped.no_duplicates()) by {
        assert forall|p: int, q: int| 0 <= p < mapped.len() && 0 <= q < mapped.len() && p != q implies mapped[p]
            != mapped[q] by {
            assert(leaves[p] != leaves[q]) by {
                let vp = leaves[p] as int;
                let vq = leaves[q] as int;
                assert(nodes[vp].leaf_pos == p);
                assert(nodes[vq].leaf_pos == q);
            }
        }
    }
    mapped.unique_seq_to_set();
    vstd::set_lib::lemma_int_range(0, nodes.len() as int);
    assert(mapped.to_set().subset_of(vstd::set_lib::set_int_range(0, nodes.len() as int))) by {
        assert forall|v: int| #[trigger] mapped.to_set().contains(v) implies 0 <= v < nodes.len() by {
            let p = choose|p: int| 0 <= p < mapped.len() && mapped[p] == v;
            assert(0 < leaves[p] < nodes.len());
        }
    }
    vstd::set_lib::lemma_len_subset(mapped.to_set(), vstd::set_lib::set_int_range(0, nodes.len() as int));
    assert(mapped.to_set() =~= listed_below(nodes, nodes.len() as int)) by {
        assert forall|v: int| #[trigger] listed_below(nodes, nodes.len() as int).contains(v) implies mapped.to_set().contains(v) by {
            let p = nodes[v].leaf_pos as int;
            assert(leaves[p] == v);
            assert(mapped[p] == v);
        }
        assert forall|v: int| #[trigger] mapped.to_set().contains(v) implies listed_below(nodes, nodes.len() as int).contains(v) by {
            let p = choose|p: int| 0 <= p < mapped.len() && mapped[p] == v;
            assert(nodes[leaves[p] as int].leaf_pos == p);
        }
    }
}

/// The contexts of the subtree of node u in preorder, each written as ASCII
/// '0'/'1' from the most recent symbol on, the node itself first (the empty
/// context of the root is left out), then the subtree of child 0, then that
/// of child 1. `fuel` bounds the levels visited.
pub open spec fn subtree_contexts(nodes: Seq<Node>, u: int, prefix: Seq<u8>, fuel: nat) -> Seq<Seq<u8>>
    decreases fuel,
{
    if fuel == 0 {
        Seq::empty()
    } else {
        let me: Seq<Seq<u8>> = if prefix.len() == 0 {
            Seq::empty()
        } else {
            Seq::empty().push(prefix)
        };
        let c0 = nodes[u].child[0] as int;
        let c1 = nodes[u].child[1] as int;
        let s0 = if c0 != 0 {
            subtree_contexts(nodes, c0, prefix.push(48u8), (fuel - 1) as nat)
        } else {
            Seq::empty()
        };
        let s1 = if c1 != 0 {
            subtree_contexts(nodes, c1, prefix.push(49u8), (fuel - 1) as nat)
        } else {
            Seq::empty()
        };
        me + s0 + s1
    }
}

/// The context of node i: the child-slot bits ('0'/'1') from the root down to
/// it, found by walking up `fuel` parents.
pub open spec fn context_of(nodes: Seq<Node>, i: int, fuel: nat) -> Seq<u8>
    decreases fuel,
{
    if fuel == 0 || i == 0 {
        Seq::empty()
    } else {
        let p = nodes[i].parent as int;
        context_of(nodes, p, (fuel - 1) as nat).push(if nodes[p].child[0] == i { 48u8 } else { 49u8 })
    }
}

/// One step down from v along bit character b: the child, or -1.
pub open spec fn step_down(nodes: Seq<Node>, v: int, b: u8) -> int {
    if v < 0 {
        -1
    } else {
        let c = nodes[v].child[if b == 48 { 0int } else { 1int }];
        if c == 0 {
            -1
        } else {
            c as int
        }
    }
}

/// The node reached from u along the bit characters of s, or -1.
pub open spec fn follow(nodes: Seq<Node>, u: int, s: Seq<u8>) -> int
    decreases s.len(),
{
    if s.len() == 0 {
        u
    } else if step_down(nodes, u, s[0]) < 0 {
        -1
    } else {
        follow(nodes, step_down(nodes, u, s[0]), s.drop_first())
    }
}

proof fn lemma_follow_push(nodes: Seq<Node>, u: int, s: Seq<u8>, b: u8)
    ensures
        follow(nodes, u, s.push(b)) == step_down(nodes, follow(nodes, u, s), b),
    decreases s.len(),
{
    reveal_with_fuel(follow, 2);
    if s.len() == 0 {
        assert(s.push(b).drop_first() =~= Seq::<u8>::empty());
        assert(s.push(b)[0] == b);
    } else {
        assert(s.push(b)[0] == s[0]);
        assert(s.push(b).drop_first() =~= s.drop_first().push(b));
        if step_down(nodes, u, s[0]) >= 0 {
            lemma_follow_push(nodes, step_down(nodes, u, s[0]), s.drop_first(), b);
        }
    }
}

/// Walking down along a node's context leads back to the node.
proof fn lemma_context_leads_to(nodes: Seq<Node>, level: Seq<int>, depth: int, i: int, fuel: nat)
    requires
        links_ok(nodes, level, depth, -1),
        0 <= i < nodes.len(),
        level[i] <= fuel,
    ensures
        follow(nodes, 0, context_of(nodes, i, fuel)) == i,
        context_of(nodes, i, fuel).len() == level[i],
        forall|k: int| 0 <= k < context_of(nodes, i, fuel).len() ==> #[trigger] context_of(nodes, i, fuel)[k] == 48
            || context_of(nodes, i, fuel)[k] == 49,
    decreases fuel,
{
    reveal(links_ok);
    if i == 0 {
    } else {
        let p = nodes[i].parent as int;
        lemma_parent_link(nodes, level, depth, i);
        let b: int = if nodes[p].child[0] == i { 0 } else { 1 };
        lemma_child_link(nodes, level, depth, p, b);
        assert(fuel >= 1);
        lemma_context_leads_to(nodes, level, depth, p, (fuel - 1) as nat);
        let cp = context_of(nodes, p, (fuel - 1) as nat);
        let ch: u8 = if nodes[p].child[0] == i { 48u8 } else { 49u8 };
        lemma_follow_push(nodes, 0, cp, ch);
        assert forall|k: int| 0 <= k < cp.push(ch).len() implies #[trigger] cp.push(ch)[k] == 48 || cp.push(ch)[k] == 49 by {
            if k < cp.len() {
                assert(cp.push(ch)[k] == cp[k]);
            }
        }
    }
}

/// Below u (at level |p|), every path of existing children shows in the
/// contexts of u's subtree, extending the prefix p.
proof fn lemma_path_listed(nodes: Seq<Node>, level: Seq<int>, depth: int, u: int, p: Seq<u8>, s: Seq<u8>)
    requires
        links_ok(nodes, level, depth, -1),
        0 <= u < nodes.len(),
        level[u] == p.len(),
        s.len() >= 1,
        forall|k: int| 0 <= k < s.len() ==> #[trigger] s[k] == 48 || s[k] == 49,
        follow(nodes, u, s) >= 0,
    ensures
        subtree_contexts(nodes, u, p, (depth + 1 - p.len()) as nat).contains(p + s),
    decreases s.len(),
{
    reveal(links_ok);
    let b: int = if s[0] == 48 { 0 } else { 1 };
    let c = nodes[u].child[b] as int;
    assert(c != 0);
    lemma_child_link(nodes, level, depth, u, b);
    lemma_level_bound(nodes, level, depth, -1, c);
    let f = (depth + 1 - p.len()) as nat;
    assert(f >= 2);
    let p2 = p.push(s[0]);
    let sub = subtree_contexts(nodes, c, p2, (f - 1) as nat);
    assert((depth + 1 - p2.len()) as nat == (f - 1) as nat);
    if s.len() == 1 {
        assert(p + s =~= p2);
        assert(sub[0] == p2);
        assert(sub.contains(p + s));
    } else {
        let s2 = s.drop_first();
        assert forall|k: int| 0 <= k < s2.len() implies #[trigger] s2[k] == 48 || s2[k] == 49 by {
            assert(s2[k] == s[k + 1]);
        }
        lemma_path_listed(nodes, level, depth, c, p2, s2);
        assert(p2 + s2 =~= p + s);
    }
    let all = subtree_contexts(nodes, u, p, f);
    let me: Seq<Seq<u8>> = if p.len() == 0 { Seq::empty() } else { Seq::empty().push(p) };
    let s0 = if nodes[u].child[0] != 0 {
        subtree_contexts(nodes, nodes[u].child[0] as int, p.push(48u8), (f - 1) as nat)
    } else {
        Seq::empty()
    };
    let s1 = if nodes[u].child[1] != 0 {
        subtree_contexts(nodes, nodes[u].child[1] as int, p.push(49u8), (f - 1) as nat)
    } else {
        Seq::empty()
    };
    assert(all == me + s0 + s1);
    let k = choose|k: int| 0 <= k < sub.len() && sub[k] == p + s;
    if b == 0 {
        assert(s0 == sub);
        assert(all[me.len() + k] == p + s);
    } else {
        assert(s1 == sub);
        assert(all[me.len() + s0.len() + k] == p + s);
    }
}

/// Walking down along bits from the root to node i spells i's context.
proof fn lemma_follow_context(nodes: Seq<Node>, level: Seq<int>, depth: int, s: Seq<u8>, fuel: nat)
    requires
        links_ok(nodes, level, depth, -1),
        forall|k: int| 0 <= k < s.len() ==> #[trigger] s[k] == 48 || s[k] == 49,
        follow(nodes, 0, s) >= 0,
        s.len() <= fuel,
    ensures
        follow(nodes, 0, s) < nodes.len(),
        s.len() >= 1 ==> follow(nodes, 0, s) != 0,
        level[follow(nodes, 0, s)] == s.len(),
        context_of(nodes, follow(nodes, 0, s), fuel) == s,
    decreases s.len(),
{
    reveal(links_ok);
    if s.len() == 0 {
    } else {
        let s1 = s.drop_last();
        let b = s.last();
        assert(s1.push(b) =~= s);
        lemma_follow_push(nodes, 0, s1, b);
        let j = follow(nodes, 0, s1);
        assert(j >= 0);
        assert forall|k: int| 0 <= k < s1.len() implies #[trigger] s1[k] == 48 || s1[k] == 49 by {
            assert(s1[k] == s[k]);
        }
        lemma_follow_context(nodes, level, depth, s1, (fuel - 1) as nat);
        let bi: int = if b == 48 { 0 } else { 1 };
        let i = nodes[j].child[bi] as int;
        assert(i != 0);
        lemma_child_link(nodes, level, depth, j, bi);
        assert(follow(nodes, 0, s) == i);
        if b == 49 {
            assert(nodes[j].child[0] != i);
        }
    }
}

/// Every context listed for the subtree of u (at level |p|) is p followed
/// by the bits of a walk down from u along existing children.
proof fn lemma_listed_path(nodes: Seq<Node>, level: Seq<int>, depth: int, u: int, p: Seq<u8>, f: nat, x: Seq<u8>)
    requires
        links_ok(nodes, level, depth, -1),
        0 <= u < nodes.len(),
        subtree_contexts(nodes, u, p, f).contains(x),
    ensures
        exists|s: Seq<u8>|
            #[trigger] follow(nodes, u, s) >= 0 && x == p + s && x.len() >= 1 && forall|k: int|
                0 <= k < s.len() ==> #[trigger] s[k] == 48 || s[k] == 49,
    decreases f,
{
    reveal(links_ok);
    let all = subtree_contexts(nodes, u, p, f);
    let me: Seq<Seq<u8>> = if p.len() == 0 { Seq::empty() } else { Seq::empty().push(p) };
    let c0 = nodes[u].child[0] as int;
    let c1 = nodes[u].child[1] as int;
    let s0 = if c0 != 0 { subtree_contexts(nodes, c0, p.push(48u8), (f - 1) as nat) } else { Seq::empty() };
    let s1 = if c1 != 0 { subtree_contexts(nodes, c1, p.push(49u8), (f - 1) as nat) } else { Seq::empty() };
    assert(f > 0);
    assert(all == me + s0 + s1);
    let k = choose|k: int| 0 <= k < all.len() && all[k] == x;
    if k < me.len() {
        let e = Seq::<u8>::empty();
        assert(x == p);
        assert(p + e =~= p);
        assert(follow(nodes, u, e) == u);
    } else if k < me.len() + s0.len() {
        assert(s0[k - me.len()] == x);
        assert(s0.contains(x));
        lemma_listed_path(nodes, level, depth, c0, p.push(48u8), (f - 1) as nat, x);
        let s = choose|s: Seq<u8>|
            #[trigger] follow(nodes, c0, s) >= 0 && x == p.push(48u8) + s && x.len() >= 1 && forall|k: int|
                0 <= k < s.len() ==> #[trigger] s[k] == 48 || s[k] == 49;
        let t = seq![48u8] + s;
        assert(t[0] == 48u8);
        assert(t.drop_first() =~= s);
        assert(step_down(nodes, u, 48u8) == c0);
        assert(follow(nodes, u, t) == follow(nodes, c0, s));
        assert(p + t =~= p.push(48u8) + s);
        assert forall|k: int| 0 <= k < t.len() implies #[trigger] t[k] == 48 || t[k] == 49 by {
            if k > 0 {
                assert(t[k] == s[k - 1]);
            }
        }
    } else {
        assert(s1[k - me.len() - s0.len()] == x);
        assert(s1.contains(x));
        lemma_listed_path(nodes, level, depth, c1, p.push(49u8), (f - 1) as nat, x);
        let s = choose|s: Seq<u8>|
            #[trigger] follow(nodes, c1, s) >= 0 && x == p.push(49u8) + s && x.len() >= 1 && forall|k: int|
                0 <= k < s.len() ==> #[trigger] s[k] == 48 || s[k] == 49;
        let t = seq![49u8] + s;
        assert(t[0] == 49u8);
        assert(t.drop_first() =~= s);
        assert(step_down(nodes, u, 49u8) == c1);
        assert(follow(nodes, u, t) == follow(nodes, c1, s));
        assert(p + t =~= p.push(49u8) + s);
        assert forall|k: int| 0 <= k < t.len() implies #[trigger] t[k] == 48 || t[k] == 49 by {
            if k > 0 {
                assert(t[k] == s[k - 1]);
            }
        }
    }
}

/// The contexts listed for a subtree are all different.
proof fn lemma_contexts_distinct(nodes: Seq<Node>, level: Seq<int>, depth: int, u: int, p: Seq<u8>, f: nat)
    requires
        links_ok(nodes, level, depth, -1),
        0 <= u < nodes.len(),
    ensures
        subtree_contexts(nodes, u, p, f).no_duplicates(),
    decreases f,
{
    reveal(links_ok);
    if f > 0 {
        let all = subtree_contexts(nodes, u, p, f);
        let me: Seq<Seq<u8>> = if p.len() == 0 { Seq::empty() } else { Seq::empty().push(p) };
        let c0 = nodes[u].child[0] as int;
        let c1 = nodes[u].child[1] as int;
        let p0 = p.push(48u8);
        let p1 = p.push(49u8);
        let s0 = if c0 != 0 { subtree_contexts(nodes, c0, p0, (f - 1) as nat) } else { Seq::empty() };
        let s1 = if c1 != 0 { subtree_contexts(nodes, c1, p1, (f - 1) as nat) } else { Seq::empty() };
        assert(all == me + s0 + s1);
        if c0 != 0 {
            lemma_contexts_distinct(nodes, level, depth, c0, p0, (f - 1) as nat);
        }
        if c1 != 0 {
            lemma_contexts_distinct(nodes, level, depth, c1, p1, (f - 1) as nat);
        }
        // each list extends its own prefix
        assert forall|y: Seq<u8>| #[trigger] s0.contains(y) implies y.len() > p.len() && y[p.len() as int] == 48u8 by {
            lemma_listed_path(nodes, level, depth, c0, p0, (f - 1) as nat, y);
            let s = choose|s: Seq<u8>|
                #[trigger] follow(nodes, c0, s) >= 0 && y == p0 + s && y.len() >= 1 && forall|k: int|
                    0 <= k < s.len() ==> #[trigger] s[k] == 48 || s[k] == 49;
            assert(y[p.len() as int] == p0[p.len() as int]);
        }
        assert forall|y: Seq<u8>| #[trigger] s1.contains(y) implies y.len() > p.len() && y[p.len() as int] == 49u8 by {
            lemma_listed_path(nodes, level, depth, c1, p1, (f - 1) as nat, y);
            let s = choose|s: Seq<u8>|
                #[trigger] follow(nodes, c1, s) >= 0 && y == p1 + s && y.len() >= 1 && forall|k: int|
                    0 <= k < s.len() ==> #[trigger] s[k] == 48 || s[k] == 49;
            assert(y[p.len() as int] == p1[p.len() as int]);
        }
        assert forall|i: int, j: int| 0 <= i < all.len() && 0 <= j < all.len() && i != j implies all[i] != all[j] by {
            let m = me.len() as int;
            let n0 = s0.len() as int;
            if i < m || j < m {
                let o = if i < m { j } else { i };
                if o >= m {
                    if o < m + n0 {
                        assert(s0.contains(all[o])) by {
                            assert(s0[o - m] == all[o]);
                        }
                    } else {
                        assert(s1.contains(all[o])) by {
                            assert(s1[o - m - n0] == all[o]);
                        }
                    }
                }
            } else if i < m + n0 && j < m + n0 {
                assert(all[i] == s0[i - m] && all[j] == s0[j - m]);
            } else if i >= m + n0 && j >= m + n0 {
                assert(all[i] == s1[i - m - n0] && all[j] == s1[j - m - n0]);
            } else {
                let a = if i < j { i } else { j };
                let b = if i < j { j } else { i };
                assert(s0.contains(all[a])) by {
                    assert(s0[a - m] == all[a]);
                }
                assert(s1.contains(all[b])) by {
                    assert(s1[b - m - n0] == all[b]);
                }
            }
        }
    }
}

/// A copy of the bytes.
fn copy_bytes(v: &Vec<u8>) -> (r: Vec<u8>)
    ensures
        r@ == v@,
{
    let mut r: Vec<u8> = Vec::new();
    let mut i: usize = 0;
    while i < v.len()
        invariant
            i <= v@.len(),
            r@ == v@.subrange(0, i as int),
        decreases v@.len() - i,
    {
        r.push(v[i]);
        i += 1;
        proof {
            assert(r@ =~= v@.subrange(0, i as int));
        }
    }
    proof {
        assert(r@ =~= v@);
    }
    r
}

/// Budget-independent statistics of a run: evictions, repeated creations,
/// lifetimes of nodes, truncated contexts, occupancy over time.
pub struct Stats {
    pub evictions: u64,
    pub creations: u64,
    /// Creations into a slot from which a child was already evicted: the cycle
    /// "created, evicted, created" that pays the parametric price again.
    ///
    /// Undercounts when the parent itself was evicted and recreated (its flags
    /// were reset with it).
    pub recreations: u64,
    /// Counter mass that left with evicted nodes (wrapping sum).
    pub evicted_mass: u64,
    /// Symbols whose descent stopped because of the budget / the lazy threshold.
    pub trunc_budget: u64,
    pub trunc_lazy: u64,
    /// Symbols whose descent stopped at a deterministic node.
    pub trunc_det: u64,
    pub peak_nodes: usize,
    /// Histogram of node lifetimes in log2 buckets: life[k] counts nodes that
    /// lived from 2^(k - 1) to 2^k bits. Only with full statistics.
    pub life: [u64; 41],
    /// Wrapping sum of lifetimes.
    pub life_sum: u64,
    /// Occupancy samples: (bit, nodes, leaves, evictions so far).
    pub occupancy: Vec<(u64, u32, u32, u64)>,
}

/// The budgeted CTW predictor.
pub struct Ctw {
    nodes: Vec<Node>,
    free: Vec<u32>,
    /// Nodes without children: the only candidates for eviction.
    leaves: Vec<u32>,
    depth: usize,
    cap: usize,
    hist: u64,
    /// Accumulated code length in bits, Q24.
    codelen: i64,
    victim: Victim,
    birth: Birth,
    sample: usize,
    lazy_k: u64,
    gamma: u32,
    beta_reset: bool,
    /// Do not split a node while its distribution is deterministic, once it has
    /// at least `det_k` visits.
    defer_det: bool,
    det_k: u64,
    verify_sum: bool,
    /// Priority of the last evicted node: c_min for the Space-Saving policy.
    last_evicted_prio: u32,
    rng: u64,
    /// Number of processed bits: the clock of lifetimes and occupancy.
    t: u64,
    /// Record lifetimes and occupancy.
    stats_full: bool,
    /// Birth time of each node, parallel to the arena, only with full statistics.
    birth_t: Vec<u32>,
    /// Step between occupancy samples in bits; 0 disables them.
    occ_every: u64,
    stats: Stats,
    tab: Tables,
    /// Depth of each node below the root.
    level: Ghost<Seq<int>>,
}

/// The xorshift64 state transition.
pub open spec fn xorshift_state(x: u64) -> u64 {
    let x1 = x ^ (x >> 12);
    let x2 = x1 ^ (x1 << 25);
    x2 ^ (x2 >> 27)
}

/// The xorshift64* output for a new state.
pub open spec fn xorshift_output(state: u64) -> u64 {
    ((state as int * 0x2545F4914F6CDD1D) % 0x1_0000_0000_0000_0000) as u64
}

impl Stats {
    /// Counters stay within what t bits can produce.
    pub open spec fn bounded(&self, t: int) -> bool {
        &&& self.trunc_budget <= t
        &&& self.trunc_lazy <= t
        &&& self.trunc_det <= t
        &&& self.occupancy@.len() <= t
    }
}

impl Ctw {
    /// Well formed in the middle of a bit: the truncation counters may already
    /// count the current bit.
    pub closed spec fn wf_pending(&self) -> bool {
        &&& self.hole_ok(-1)
        &&& self.codelen_ok()
        &&& self.stats.trunc_budget <= self.t + 1
        &&& self.stats.trunc_lazy <= self.t + 1
        &&& self.stats.trunc_det <= self.t + 1
        &&& self.stats.occupancy@.len() <= self.t
        &&& self.stats_full ==> self.birth_t@.len() >= self.nodes@.len()
    }

    /// The predictor is well formed: a consistent tree within budget, a leaf
    /// list that lists exactly the evictable nodes, and bounded counters.
    pub closed spec fn wf(&self) -> bool {
        &&& self.hole_ok(-1)
        &&& self.codelen_ok()
        &&& self.stats.bounded(self.t as int)
        &&& self.stats_full ==> self.birth_t@.len() >= self.nodes@.len()
    }

    /// The code length is within what t bits can produce.
    pub closed spec fn codelen_ok(&self) -> bool {
        -logbeta_step() * self.t <= self.codelen <= logbeta_step() * self.t
    }

    /// Well formed but for node `hole` (or -1), which is not linked in.
    pub closed spec fn hole_ok(&self, hole: int) -> bool {
        &&& self.tab.wf()
        &&& self.depth <= 63
        &&& 1 <= self.cap <= NONE
        &&& self.nodes@.len() <= self.cap
        &&& self.free@.len() == 0
        &&& links_ok(self.nodes@, self.level@, self.depth as int, hole)
        &&& leaf_index_ok(self.nodes@, self.leaves@)
        &&& leaf_set_ok(self.nodes@, hole)
        &&& counts_ok(self.nodes@, self.t as int)
        &&& self.t <= 0xFFFF_FFFF
        &&& self.gamma >= 1
        &&& forall|i: int| 0 <= i < self.birth_t@.len() ==> #[trigger] self.birth_t@[i] <= self.t
    }

    /// Every field but the arena is the same in both.
    pub closed spec fn same_except_nodes(&self, other: &Ctw) -> bool {
        &&& self.free == other.free
        &&& self.leaves == other.leaves
        &&& self.depth == other.depth
        &&& self.cap == other.cap
        &&& self.hist == other.hist
        &&& self.codelen == other.codelen
        &&& self.victim == other.victim
        &&& self.birth == other.birth
        &&& self.sample == other.sample
        &&& self.lazy_k == other.lazy_k
        &&& self.gamma == other.gamma
        &&& self.beta_reset == other.beta_reset
        &&& self.defer_det == other.defer_det
        &&& self.det_k == other.det_k
        &&& self.verify_sum == other.verify_sum
        &&& self.last_evicted_prio == other.last_evicted_prio
        &&& self.rng == other.rng
        &&& self.t == other.t
        &&& self.stats_full == other.stats_full
        &&& self.birth_t == other.birth_t
        &&& self.occ_every == other.occ_every
        &&& self.stats == other.stats
        &&& self.tab == other.tab
        &&& self.level == other.level
    }

    /// A predictor of context depth `depth` with an arena of at most `cap` nodes
    /// (node indices are `u32`, so `cap` stays below `NONE`).
    pub fn new(depth: usize, cap: usize) -> (c: Ctw)
        requires
            depth <= 63,
            cap >= depth + 2,
            cap <= NONE,
        ensures
            c.wf(),
            c.arena().len() == 1,
            is_fresh(c.arena()[0], NONE, 0, 0, 0),
            c.leaf_list().len() == 0,
            c.free_list().len() == 0,
            c.spec_stats().evictions == 0,
            c.spec_stats().creations == 0,
            c.spec_stats().recreations == 0,
            c.spec_stats().evicted_mass == 0,
            c.spec_stats().trunc_budget == 0,
            c.spec_stats().trunc_lazy == 0,
            c.spec_stats().trunc_det == 0,
            c.spec_stats().peak_nodes == 1,
            c.spec_stats().life_sum == 0,
            c.spec_stats().occupancy@.len() == 0,
            forall|k: int| 0 <= k < 41 ==> #[trigger] c.spec_stats().life[k] == 0,
            c.spec_depth() == depth,
            c.spec_cap() == cap,
            c.spec_hist() == 0,
            c.spec_codelen() == 0,
            c.spec_t() == 0,
            c.spec_rng() == 0x2545F4914F6CDD1D,
            c.settings() == (Settings {
                victim: Victim::Lfu,
                birth: Birth::Cold,
                sample: 8,
                lazy_k: 0,
                gamma: 2,
                beta_reset: false,
                defer_det: false,
                det_k: 0,
                verify_sum: false,
            }),
    {
        let root = Node::fresh(NONE, 0, 0, 0);  // the root has index 0
        let level: Ghost<Seq<int>> = Ghost(Seq::empty().push(0int));
        let c = Ctw {
            nodes: vec![root],
            free: Vec::new(),
            leaves: Vec::new(),  // the root is not a leaf candidate: it is never evicted
            depth,
            cap,
            hist: 0,
            codelen: 0,
            victim: Victim::Lfu,
            birth: Birth::Cold,
            sample: 8,
            lazy_k: 0,
            gamma: 2,
            beta_reset: false,
            defer_det: false,
            det_k: 0,
            verify_sum: false,
            last_evicted_prio: 0,
            rng: 0x2545F4914F6CDD1D,
            t: 0,
            stats_full: false,
            birth_t: Vec::new(),
            occ_every: 0,
            stats: Stats {
                evictions: 0,
                creations: 0,
                recreations: 0,
                evicted_mass: 0,
                trunc_budget: 0,
                trunc_lazy: 0,
                trunc_det: 0,
                peak_nodes: 1,
                life: [0; 41],
                life_sum: 0,
                occupancy: Vec::new(),
            },
            tab: Tables::new(),
            level,
        };
        proof {
            assert(c.nodes@[0] == root);
            reveal(links_ok);
            reveal(leaf_index_ok);
            reveal(leaf_set_ok);
            reveal(counts_ok);
            assert(c.tab.wf());
        }
        c
    }

    /// The settings of the run.
    pub closed spec fn settings(&self) -> Settings {
        Settings {
            victim: self.victim,
            birth: self.birth,
            sample: self.sample,
            lazy_k: self.lazy_k,
            gamma: self.gamma,
            beta_reset: self.beta_reset,
            defer_det: self.defer_det,
            det_k: self.det_k,
            verify_sum: self.verify_sum,
        }
    }

    /// Replaces the settings of the run.
    pub fn configure(&mut self, s: Settings)
        requires
            old(self).wf(),
            s.gamma >= 1,
        ensures
            final(self).wf(),
            final(self).settings() == s,
            final(self).arena() == old(self).arena(),
            final(self).leaf_list() == old(self).leaf_list(),
            final(self).spec_t() == old(self).spec_t(),
            final(self).spec_codelen() == old(self).spec_codelen(),
            final(self).spec_hist() == old(self).spec_hist(),
            final(self).spec_rng() == old(self).spec_rng(),
            final(self).spec_depth() == old(self).spec_depth(),
            final(self).spec_cap() == old(self).spec_cap(),
    {
        self.victim = s.victim;
        self.birth = s.birth;
        self.sample = s.sample;
        self.lazy_k = s.lazy_k;
        self.gamma = s.gamma;
        self.beta_reset = s.beta_reset;
        self.defer_det = s.defer_det;
        self.det_k = s.det_k;
        self.verify_sum = s.verify_sum;
    }

    /// Seeds the random generator of the sampled eviction. The lowest bit is
    /// set: xorshift does not leave the zero state.
    pub fn set_seed(&mut self, seed: u64)
        requires
            old(self).wf(),
        ensures
            final(self).wf(),
            final(self).spec_rng() == seed | 1,
            final(self).spec_rng() != 0,
            final(self).settings() == old(self).settings(),
            final(self).arena() == old(self).arena(),
            final(self).leaf_list() == old(self).leaf_list(),
            final(self).spec_t() == old(self).spec_t(),
            final(self).spec_codelen() == old(self).spec_codelen(),
            final(self).spec_hist() == old(self).spec_hist(),
            final(self).spec_depth() == old(self).spec_depth(),
            final(self).spec_cap() == old(self).spec_cap(),
    {
        self.rng = seed | 1;
        proof {
            assert((seed | 1u64) != 0u64) by (bit_vector);
        }
    }

    /// xorshift64*: deterministic for a fixed seed.
    fn rng_next(&mut self) -> (r: u64)
        ensures
            final(self).rng == xorshift_state(old(self).rng),
            r == xorshift_output(xorshift_state(old(self).rng)),
            final(self).nodes == old(self).nodes,
            final(self).leaves == old(self).leaves,
            final(self).stats == old(self).stats,
            final(self).level == old(self).level,
            final(self).tab == old(self).tab,
            final(self).t == old(self).t,
            final(self).sample == old(self).sample,
            final(self).victim == old(self).victim,
            final(self).birth == old(self).birth,
            final(self).beta_reset == old(self).beta_reset,
            final(self).stats_full == old(self).stats_full,
            final(self).birth_t == old(self).birth_t,
            final(self).last_evicted_prio == old(self).last_evicted_prio,
            final(self).same_except_rng(old(self)),
    {
        let mut x = self.rng;
        x ^= x >> 12;
        x ^= x << 25;
        x ^= x >> 27;
        self.rng = x;
        x.wrapping_mul(0x2545F4914F6CDD1D)
    }

    /// Every field but the generator state is the same in both.
    pub closed spec fn same_except_rng(&self, other: &Ctw) -> bool {
        &&& self.nodes == other.nodes
        &&& self.free == other.free
        &&& self.leaves == other.leaves
        &&& self.depth == other.depth
        &&& self.cap == other.cap
        &&& self.hist == other.hist
        &&& self.codelen == other.codelen
        &&& self.victim == other.victim
        &&& self.birth == other.birth
        &&& self.sample == other.sample
        &&& self.lazy_k == other.lazy_k
        &&& self.gamma == other.gamma
        &&& self.beta_reset == other.beta_reset
        &&& self.defer_det == other.defer_det
        &&& self.det_k == other.det_k
        &&& self.verify_sum == other.verify_sum
        &&& self.last_evicted_prio == other.last_evicted_prio
        &&& self.t == other.t
        &&& self.stats_full == other.stats_full
        &&& self.birth_t == other.birth_t
        &&& self.occ_every == other.occ_every
        &&& self.stats == other.stats
        &&& self.tab == other.tab
        &&& self.level == other.level
    }

    /// Walk up the path: log2 of the update factor
    /// r = P_w^root(after) / P_w^root(before). With `commit` the new log beta
    /// values are written, otherwise only computed.
    ///
    /// The deepest node of the path is always treated as a leaf (P_w = P_e,
    /// r = q), whether the descent reached the full depth or stopped for the
    /// budget or the lazy threshold. The symbol must be counted exactly once, in
    /// the deepest available node; counting a stopped node as internal with
    /// absent children would make the model stop being a distribution.
    #[verifier::rlimit(80)]
    fn walk(&mut self, path: &Vec<u32>, x: usize, commit: bool) -> (logr: i64)
        requires
            old(self).hole_ok(-1),
            path_ok(old(self).nodes@, path@),
            x < 2,
        ensures
            logr == walk_value(old(self).nodes@, path@, x as int, 0),
            final(self).same_except_nodes(old(self)),
            final(self).nodes@.len() == old(self).nodes@.len(),
            forall|d: int|
                0 <= d < path@.len() - 1 && commit ==> #[trigger] final(self).nodes@[path@[d] as int]
                    == (Node {
                    logbeta: walked_logbeta(old(self).nodes@, path@, x as int, d) as i64,
                    ..old(self).nodes@[path@[d] as int]
                }),
            forall|i: int|
                0 <= i < old(self).nodes@.len() && (!commit || forall|d: int|
                    0 <= d < path@.len() - 1 ==> path@[d] != i) ==> #[trigger] final(self).nodes@[i]
                    == old(self).nodes@[i],
    {
        let ghost old_nodes = self.nodes@;
        proof {
            lemma_path_levels(self.nodes@, self.level@, self.depth as int, -1, path@);
        }
        let k = path.len() - 1;
        proof {
            lemma_counts_at(self.nodes@, self.t as int, path@[k as int] as int);
            lemma_level_bound(self.nodes@, self.level@, self.depth as int, -1, path@[k as int] as int);
            lemma_visits_bounded(self.nodes@, self.t as int);
            assert(self.level@[path@[k as int] as int] == k);
            assert(k <= 63);
        }
        let mut logr = self.kt_log_cond(path[k] as usize, x);
        let mut d: usize = k;
        while d > 0
            invariant
                0 <= d <= k,
                k == path@.len() - 1,
                k <= 63,
                path_ok(old_nodes, path@),
                forall|d1: int, d2: int|
                    0 <= d1 < path@.len() && 0 <= d2 < path@.len() && d1 != d2 ==> #[trigger] path@[d1]
                        != #[trigger] path@[d2],
                x < 2,
                self.tab.wf(),
                self.nodes@.len() == old_nodes.len(),
                counts_ok(old_nodes, self.t as int),
                self.t <= 0xFFFF_FFFF,
                logr == walk_value(old_nodes, path@, x as int, d as int),
                forall|e: int|
                    d <= e < k && commit ==> #[trigger] self.nodes@[path@[e] as int] == (Node {
                        logbeta: walked_logbeta(old_nodes, path@, x as int, e) as i64,
                        ..old_nodes[path@[e] as int]
                    }),
                forall|i: int|
                    0 <= i < old_nodes.len() && (!commit || forall|e: int|
                        d <= e < k ==> path@[e] != i) ==> #[trigger] self.nodes@[i] == old_nodes[i],
                self.same_except_nodes(old(self)),
            decreases d,
        {
            d -= 1;
            let i = path[d] as usize;
            proof {
                assert(path@[d as int] < old_nodes.len());
                assert forall|e: int| d < e < k implies path@[e] != i by {}
                assert(self.nodes@[i as int] == old_nodes[i as int]);
                lemma_counts_at(old_nodes, self.t as int, i as int);
                lemma_visits_bounded(old_nodes, self.t as int);
                lemma_walk_bounds(old_nodes, path@, x as int, d as int + 1);
                assert((k - (d + 1)) * ONE <= 63 * ONE) by (nonlinear_arith)
                    requires
                        0 <= k - (d + 1) <= 63,
                ;
                assert(-33 * ONE - 63 * ONE <= logr <= 63 * ONE);
                let t = self.t as int;
                assert(logbeta_step() * t <= logbeta_step() * 0xFFFF_FFFF) by (nonlinear_arith)
                    requires
                        0 <= t <= 0xFFFF_FFFF,
                        logbeta_step() > 0,
                ;
                assert(-logbeta_step() * t >= -logbeta_step() * 0xFFFF_FFFF) by (nonlinear_arith)
                    requires
                        0 <= t <= 0xFFFF_FFFF,
                        logbeta_step() > 0,
                ;
            }
            let lq = self.kt_log_cond(i, x);
            let lb = self.nodes[i].logbeta;
            // beta' = beta q / r  (in logarithms: a sum)
            let lb_new = lb + lq - logr;
            // r_d = r_{d+1} (1 + beta') / (1 + beta)
            let ga = self.tab.log2_1p_exp2(lb_new);
            let gb = self.tab.log2_1p_exp2(lb);
            proof {
                lemma_log2_1p_exp2_bounds(lb_new as int);
                lemma_log2_1p_exp2_bounds(lb as int);
                lemma_mixing_step_bounds(logr as int, lq as int, lb as int);
            }
            logr = logr + (ga - gb);
            if commit {
                let mut nd = self.nodes[i];
                nd.logbeta = lb_new;
                self.nodes.set(i, nd);
            }
        }
        logr
    }

    // --- leaf bookkeeping ---

    fn leaf_add(&mut self, v: u32)
        requires
            leaf_index_ok(old(self).nodes@, old(self).leaves@),
            v < old(self).nodes@.len(),
            old(self).nodes@.len() <= NONE,
        ensures
            leaf_index_ok(final(self).nodes@, final(self).leaves@),
            same_but_leaf_pos(old(self).nodes@, final(self).nodes@),
            forall|i: int|
                0 <= i < old(self).nodes@.len() && i != v ==> #[trigger] final(self).nodes@[i].leaf_pos
                    == old(self).nodes@[i].leaf_pos,
            (v == 0) ==> final(self).nodes@[v as int].leaf_pos == NONE,
            (v != 0) ==> final(self).nodes@[v as int].leaf_pos != NONE,
            final(self).same_except_nodes_leaves(old(self)),
    {
        proof {
            reveal(leaf_index_ok);
        }
        if v == 0 || self.nodes[v as usize].leaf_pos != NONE {
            return;  // the root is never evicted; adding twice is ignored
        }
        proof {
            lemma_leaf_list_shorter(self.nodes@, self.leaves@);
        }
        let ghost old_nodes = self.nodes@;
        let ghost old_leaves = self.leaves@;
        let mut nd = self.nodes[v as usize];
        nd.leaf_pos = self.leaves.len() as u32;
        self.nodes.set(v as usize, nd);
        self.leaves.push(v);
        proof {
            reveal(leaf_index_ok);
            assert forall|p: int| 0 <= p < self.leaves@.len() implies {
                let w = #[trigger] self.leaves@[p] as int;
                &&& 0 < w < self.nodes@.len()
                &&& self.nodes@[w].leaf_pos == p
            } by {
                if p < old_leaves.len() {
                    assert(self.leaves@[p] == old_leaves[p]);
                    assert(old_nodes[old_leaves[p] as int].leaf_pos == p);
                    assert(old_leaves[p] != v);
                }
            }
            assert forall|w: int|
                0 <= w < self.nodes@.len() && #[trigger] self.nodes@[w].leaf_pos != NONE implies {
                &&& self.nodes@[w].leaf_pos < self.leaves@.len()
                &&& self.leaves@[self.nodes@[w].leaf_pos as int] == w
            } by {
                if w != v {
                    assert(old_nodes[w].leaf_pos == self.nodes@[w].leaf_pos);
                }
            }
        }
    }

    fn leaf_remove(&mut self, v: u32)
        requires
            leaf_index_ok(old(self).nodes@, old(self).leaves@),
            v < old(self).nodes@.len(),
            old(self).nodes@.len() <= NONE,
        ensures
            leaf_index_ok(final(self).nodes@, final(self).leaves@),
            same_but_leaf_pos(old(self).nodes@, final(self).nodes@),
            forall|i: int|
                0 <= i < old(self).nodes@.len() && i != v ==> (#[trigger] final(self).nodes@[i].leaf_pos
                    != NONE <==> old(self).nodes@[i].leaf_pos != NONE),
            final(self).nodes@[v as int].leaf_pos == NONE,
            final(self).same_except_nodes_leaves(old(self)),
    {
        let pos = self.nodes[v as usize].leaf_pos;
        if pos == NONE {
            return;
        }
        proof {
            reveal(leaf_index_ok);
        }
        let last = *self.leaves.last().unwrap();
        let ghost old_leaves = self.leaves@;
        let ghost old_nodes = self.nodes@;
        self.leaves.swap_remove(pos as usize);
        if last != v {
            let mut nl = self.nodes[last as usize];
            nl.leaf_pos = pos;
            self.nodes.set(last as usize, nl);
        }
        let mut nd = self.nodes[v as usize];
        nd.leaf_pos = NONE;
        self.nodes.set(v as usize, nd);
        proof {
            reveal(leaf_index_ok);
            lemma_leaf_list_shorter(old_nodes, old_leaves);
            let n = old_leaves.len() - 1;
            assert(old_leaves[n] == last);
            assert(old_nodes[last as int].leaf_pos == n);
            assert forall|p: int| 0 <= p < self.leaves@.len() implies {
                let w = #[trigger] self.leaves@[p] as int;
                &&& 0 < w < self.nodes@.len()
                &&& self.nodes@[w].leaf_pos == p
            } by {
                if p == pos {
                    assert(self.leaves@[p] == last);
                } else {
                    assert(self.leaves@[p] == old_leaves[p]);
                    assert(old_nodes[old_leaves[p] as int].leaf_pos == p);
                }
            }
            assert forall|w: int|
                0 <= w < self.nodes@.len() && #[trigger] self.nodes@[w].leaf_pos != NONE implies {
                &&& self.nodes@[w].leaf_pos < self.leaves@.len()
                &&& self.leaves@[self.nodes@[w].leaf_pos as int] == w
            } by {
                if w == last {
                    assert(self.leaves@[pos as int] == last);
                } else {
                    assert(old_nodes[w].leaf_pos != NONE);
                    assert(old_leaves[old_nodes[w].leaf_pos as int] == w);
                    assert(old_nodes[w].leaf_pos != n);
                }
            }
            assert forall|i: int| 0 <= i < old_nodes.len() && i != v implies (
            #[trigger] self.nodes@[i].leaf_pos != NONE <==> old_nodes[i].leaf_pos != NONE) by {
                if i == last {
                    assert(old_nodes[i].leaf_pos == n);
                    assert(self.nodes@[i].leaf_pos == pos);
                }
            }
        }
    }

    /// Evicts one leaf. `protect` is the node that is about to get a child: it is
    /// the only node on the current path that may be a leaf, every other node of
    /// the path has a child on the same path and is not listed.
    ///
    /// The victim is chosen by sampling; when no sampled draw is usable (all
    /// hit `protect`), the first other listed leaf goes. None: no leaf but
    /// `protect`. Returns the index of the freed node and the mass of its
    /// counters (c_min for the Space-Saving policy).
    fn evict(&mut self, protect: u32) -> (r: Option<(u32, u64)>)
        requires
            old(self).wf(),
            protect < old(self).nodes@.len(),
        ensures
            final(self).spec_rng() == (if old(self).leaves@.len() == 0 {
                old(self).rng
            } else {
                sample_pick(
                    old(self).rng,
                    old(self).leaves@,
                    old(self).nodes@,
                    protect,
                    old(self).victim,
                    old(self).sample as nat,
                    None,
                ).1
            }),
            old(self).leaves@.len() == 0 ==> r is None,
            old(self).leaves@.len() != 0 ==> (r is None <==> sample_pick(
                old(self).rng,
                old(self).leaves@,
                old(self).nodes@,
                protect,
                old(self).victim,
                old(self).sample as nat,
                None,
            ).0 is None && first_other(old(self).leaves@, protect, 0) is None),
            r is None ==> final(self).wf() && final(self).same_except_rng(old(self)),
            r matches Some((v, mass)) ==> {
                let p = old(self).nodes@[v as int].parent as int;
                let pn = old(self).nodes@[p];
                let fnodes = final(self).nodes@;
                &&& v == match sample_pick(
                    old(self).rng,
                    old(self).leaves@,
                    old(self).nodes@,
                    protect,
                    old(self).victim,
                    old(self).sample as nat,
                    None,
                ).0 {
                    Some(pk) => pk.0,
                    None => first_other(old(self).leaves@, protect, 0)->0,
                }
                &&& 0 < v < old(self).nodes@.len()
                &&& v != protect
                &&& old(self).nodes@[v as int].leaf_pos != NONE
                &&& mass == visits(old(self).nodes@[v as int])
                &&& mass <= old(self).t
                &&& final(self).last_evicted_prio == old(self).nodes@[v as int].prio
                &&& final(self).hole_ok(v as int)
                &&& detached(old(self).nodes@, fnodes, v as int, p)
                &&& fnodes[p].logbeta == (if old(self).beta_reset {
                    0
                } else {
                    pn.logbeta
                })
                &&& final(self).stats.evictions == vstd::wrapping::u64_specs::wrapping_add(old(self).stats.evictions, 1)
                &&& eviction_counted(
                    old(self).stats,
                    final(self).stats,
                    mass,
                    old(self).stats_full,
                    (old(self).t - old(self).birth_t@[v as int]) as u64,
                )
                &&& slot_marked(pn, fnodes[p], v as int)
                &&& final(self).stats.peak_nodes == old(self).stats.peak_nodes
                &&& final(self).stats.creations == old(self).stats.creations
                &&& final(self).stats.recreations == old(self).stats.recreations
                &&& final(self).stats.trunc_budget == old(self).stats.trunc_budget
                &&& final(self).stats.trunc_lazy == old(self).stats.trunc_lazy
                &&& final(self).stats.trunc_det == old(self).stats.trunc_det
                &&& final(self).stats.occupancy == old(self).stats.occupancy
                &&& final(self).level == old(self).level
                &&& final(self).t == old(self).t
                &&& final(self).hist == old(self).hist
                &&& final(self).codelen == old(self).codelen
                &&& final(self).settings() == old(self).settings()
                &&& final(self).stats_full == old(self).stats_full
                &&& final(self).birth_t == old(self).birth_t
                &&& final(self).occ_every == old(self).occ_every
                &&& final(self).tab == old(self).tab
                &&& final(self).depth == old(self).depth
                &&& final(self).cap == old(self).cap
            },
    {
        if self.leaves.is_empty() {
            return None;
        }
        let ghost rng0 = self.rng;
        let ghost pick = sample_pick(
            rng0,
            self.leaves@,
            self.nodes@,
            protect,
            self.victim,
            self.sample as nat,
            None,
        );
        let mut best: Option<(u32, u64)> = None;
        let mut i: usize = 0;
        while i < self.sample
            invariant_except_break
                i <= self.sample,
                pick == sample_pick(
                    self.rng,
                    self.leaves@,
                    self.nodes@,
                    protect,
                    self.victim,
                    (self.sample - i) as nat,
                    best,
                ),
            invariant
                old(self).wf(),
                self.same_except_rng(old(self)),
                self.leaves@.len() > 0,
                best matches Some((c, _)) ==> {
                    &&& c != protect
                    &&& exists|p: int| 0 <= p < self.leaves@.len() && self.leaves@[p] == c
                },
            ensures
                pick == (best, self.rng),
            decreases self.sample - i,
        {
            i += 1;
            let out = self.rng_next();
            let j = (out % self.leaves.len() as u64) as usize;
            let cand = self.leaves[j];
            if cand == protect {
                continue;
            }
            proof {
                lemma_list_entry(self.nodes@, self.leaves@, j as int);
                assert(cand < self.nodes@.len());
            }
            let nd = &self.nodes[cand as usize];
            let key = match self.victim {
                Victim::Lfu => nd.n[0] as u64 + nd.n[1] as u64,
                Victim::Ss => nd.prio as u64,
                Victim::Random => 0,  // the first usable candidate
            };
            match best {
                Some((_, bk)) if bk <= key => {},
                _ => best = Some((cand, key)),
            }
            if self.victim == Victim::Random {
                break;
            }
        }
        // The mass is taken from the node itself, not from the selection key:
        // under the random policy the key is identically zero.
        let v = match best {
            Some((v, _)) => v,
            None => {
                // no sampled draw was usable: take the first other leaf
                let mut k: usize = 0;
                let mut found: Option<u32> = None;
                while k < self.leaves.len()
                    invariant_except_break
                        found is None,
                        first_other(self.leaves@, protect, 0) == first_other(self.leaves@, protect, k as int),
                    invariant
                        k <= self.leaves@.len(),
                        found matches Some(c) ==> c != protect && first_other(self.leaves@, protect, 0) == Some(c)
                            && exists|p: int| 0 <= p < self.leaves@.len() && self.leaves@[p] == c,
                    ensures
                        found == first_other(self.leaves@, protect, 0),
                    decreases self.leaves@.len() - k,
                {
                    let c = self.leaves[k];
                    if c != protect {
                        found = Some(c);
                        proof {
                            assert(self.leaves@[k as int] == c);
                        }
                        break;
                    }
                    k += 1;
                }
                match found {
                    Some(c) => c,
                    None => {
                        return None;
                    },
                }
            },
        };
        proof {
            let pv = choose|p: int| 0 <= p < self.leaves@.len() && self.leaves@[p] == v;
            lemma_list_entry(self.nodes@, self.leaves@, pv);
            assert(self.nodes@[v as int].leaf_pos == pv);
            lemma_leaf_list_shorter(self.nodes@, self.leaves@);
            assert(self.nodes@[v as int].leaf_pos != NONE);
        }
        let mass = self.detach(v);
        Some((v, mass))
    }

    /// Detaches leaf v from its parent, listing the parent if it became
    /// childless, and records the eviction. Returns the mass of v's counters.
    #[verifier::rlimit(40)]
    fn detach(&mut self, v: u32) -> (mass: u64)
        requires
            old(self).wf(),
            0 < v < old(self).nodes@.len(),
            old(self).nodes@[v as int].leaf_pos != NONE,
        ensures
            ({
                let p = old(self).nodes@[v as int].parent as int;
                let pn = old(self).nodes@[p];
                let fnodes = final(self).nodes@;
                &&& mass == visits(old(self).nodes@[v as int])
                &&& mass <= old(self).t
                &&& final(self).last_evicted_prio == old(self).nodes@[v as int].prio
                &&& final(self).hole_ok(v as int)
                &&& detached(old(self).nodes@, fnodes, v as int, p)
                &&& fnodes[p].logbeta == (if old(self).beta_reset {
                    0
                } else {
                    pn.logbeta
                })
                &&& final(self).stats.evictions == vstd::wrapping::u64_specs::wrapping_add(old(self).stats.evictions, 1)
                &&& eviction_counted(
                    old(self).stats,
                    final(self).stats,
                    mass,
                    old(self).stats_full,
                    (old(self).t - old(self).birth_t@[v as int]) as u64,
                )
                &&& slot_marked(pn, fnodes[p], v as int)
                &&& final(self).stats.creations == old(self).stats.creations
                &&& final(self).stats.recreations == old(self).stats.recreations
                &&& final(self).stats.trunc_budget == old(self).stats.trunc_budget
                &&& final(self).stats.trunc_lazy == old(self).stats.trunc_lazy
                &&& final(self).stats.trunc_det == old(self).stats.trunc_det
                &&& final(self).stats.occupancy == old(self).stats.occupancy
                &&& final(self).stats.peak_nodes == old(self).stats.peak_nodes
                &&& final(self).level == old(self).level
                &&& final(self).t == old(self).t
                &&& final(self).hist == old(self).hist
                &&& final(self).codelen == old(self).codelen
                &&& final(self).rng == old(self).rng
                &&& final(self).settings() == old(self).settings()
                &&& final(self).stats_full == old(self).stats_full
                &&& final(self).birth_t == old(self).birth_t
                &&& final(self).occ_every == old(self).occ_every
                &&& final(self).tab == old(self).tab
                &&& final(self).depth == old(self).depth
                &&& final(self).cap == old(self).cap
            }),
    {
        let ghost old_nodes = self.nodes@;
        let ghost old_stats_life = self.stats.life;
        let vn = self.nodes[v as usize];
        let mass = vn.n[0] as u64 + vn.n[1] as u64;
        self.last_evicted_prio = vn.prio;

        // detach from the parent, marking the slot as having had an eviction
        let p = vn.parent;
        proof {
            lemma_parent_link(old_nodes, self.level@, self.depth as int, v as int);
            lemma_listed(old_nodes, self.leaves@, -1, p as int);
            lemma_listed(old_nodes, self.leaves@, -1, v as int);
            lemma_counts_at(old_nodes, self.t as int, v as int);
            assert(p < old_nodes.len());
            assert(old_nodes[p as int].child[0] == v || old_nodes[p as int].child[1] == v);
            assert(!childless(old_nodes[p as int]));
            assert(old_nodes[p as int].leaf_pos == NONE);
        }
        let mut pn = self.nodes[p as usize];
        if pn.child[0] == v {
            pn.child[0] = 0;
            pn.evicted_slots |= 1;
        } else {
            pn.child[1] = 0;
            pn.evicted_slots |= 2;
        }
        if self.beta_reset {
            pn.logbeta = 0;
        }
        let parent_now_leaf = pn.child[0] == 0 && pn.child[1] == 0;
        self.nodes.set(p as usize, pn);
        proof {
            lemma_leaf_index_frame(old_nodes, self.nodes@, self.leaves@);
        }
        let ghost n1 = self.nodes@;
        if parent_now_leaf {
            self.leaf_add(p);
        }
        let ghost n2 = self.nodes@;
        self.leaf_remove(v);
        let ghost n3 = self.nodes@;
        proof {
            assert forall|i: int| 0 <= i < n3.len() && i != p implies #[trigger] n3[i] == (Node {
                leaf_pos: n3[i].leaf_pos,
                ..old_nodes[i]
            }) by {
                assert(n1[i] == old_nodes[i]);
                assert(n2[i] == (Node { leaf_pos: n2[i].leaf_pos, ..n1[i] }));
                assert(n3[i] == (Node { leaf_pos: n3[i].leaf_pos, ..n2[i] }));
            }
            assert(n2[p as int] == (Node { leaf_pos: n2[p as int].leaf_pos, ..n1[p as int] }));
            assert(n3[p as int] == (Node { leaf_pos: n3[p as int].leaf_pos, ..n2[p as int] }));
            assert forall|b: int| 0 <= b < 2 implies #[trigger] n3[p as int].child[b] == (if old_nodes[p as int].child[b] == v {
                0
            } else {
                old_nodes[p as int].child[b]
            }) by {
                assert(n3[p as int].child == pn.child);
            }
            assert forall|w: int|
                0 <= w < n3.len() && w != v && w != p implies (#[trigger] n3[w].leaf_pos != NONE
                <==> old_nodes[w].leaf_pos != NONE) by {
                assert(n1[w] == old_nodes[w]);
            }
            assert(detached(old_nodes, n3, v as int, p as int));
            lemma_detach(old_nodes, n3, self.level@, self.depth as int, v as int, p as int, self.t as int);
        }

        self.stats.evictions = self.stats.evictions.wrapping_add(1);
        self.stats.evicted_mass = self.stats.evicted_mass.wrapping_add(mass);
        if self.stats_full {
            let life = self.t - self.birth_t[v as usize] as u64;
            // bucket k = ceil(log2 life) + 1, bucket 0 for life = 0
            let k = (64 - life.leading_zeros()) as usize;
            let kk = if k < 40 { k } else { 40 };
            self.stats.life[kk] = self.stats.life[kk].wrapping_add(1);
            self.stats.life_sum = self.stats.life_sum.wrapping_add(life);
        }
        mass
    }

    /// Allocates a node as child `slot` of `parent`. None: the budget is
    /// exhausted and nothing can be evicted (no leaf but the parent), the
    /// descent must stop.
    #[verifier::rlimit(100)]
    #[verifier::spinoff_prover]
    fn alloc_node(&mut self, parent: u32, slot: usize) -> (r: Option<u32>)
        requires
            old(self).wf(),
            parent < old(self).nodes@.len(),
            slot < 2,
            old(self).nodes@[parent as int].child[slot as int] == 0,
            old(self).level@[parent as int] < old(self).depth,
        ensures
            final(self).wf(),
            final(self).t == old(self).t,
            final(self).hist == old(self).hist,
            final(self).codelen == old(self).codelen,
            final(self).settings() == old(self).settings(),
            final(self).depth == old(self).depth,
            final(self).cap == old(self).cap,
            final(self).occ_every == old(self).occ_every,
            final(self).stats_full == old(self).stats_full,
            final(self).stats.trunc_budget == old(self).stats.trunc_budget,
            final(self).stats.trunc_lazy == old(self).stats.trunc_lazy,
            final(self).stats.trunc_det == old(self).stats.trunc_det,
            final(self).stats.occupancy == old(self).stats.occupancy,
            final(self).stats.creations == (if r is Some {
                vstd::wrapping::u64_specs::wrapping_add(old(self).stats.creations, 1)
            } else {
                old(self).stats.creations
            }),
            r is None ==> {
                &&& old(self).nodes@.len() == old(self).cap
                &&& old(self).free@.len() == 0
                &&& forall|k: int| 0 <= k < old(self).leaves@.len() ==> #[trigger] old(self).leaves@[k] == parent
                &&& final(self).nodes == old(self).nodes
                &&& final(self).leaves == old(self).leaves
                &&& final(self).level == old(self).level
                &&& final(self).stats == old(self).stats
            },
            r matches Some(idx) ==> {
                let fnodes = final(self).nodes@;
                let nd = fnodes[idx as int];
                let born = birth_counts(
                    old(self).birth,
                    if old(self).nodes@.len() < old(self).cap {
                        None
                    } else {
                        Some(visits(old(self).nodes@[idx as int]) as u64)
                    },
                    old(self).nodes@[parent as int],
                    old(self).gamma,
                );
                &&& 0 < idx < fnodes.len()
                &&& idx != parent
                &&& fnodes[parent as int].child[slot as int] == idx
                &&& final(self).level@[idx as int] == old(self).level@[parent as int] + 1
                &&& nd.n[0] == born.0
                &&& nd.n[1] == born.1
                &&& childless(nd)
                &&& nd.parent == parent
                &&& nd.logbeta == 0
                &&& nd.evicted_slots == 0
                &&& nd.prio == vstd::wrapping::u32_specs::wrapping_add(
                    if old(self).nodes@.len() < old(self).cap {
                        0u32
                    } else {
                        old(self).nodes@[idx as int].prio
                    },
                    1,
                )
                &&& final(self).stats.recreations == (if old(self).nodes@[parent as int].evicted_slots & (1u8 << slot as u8)
                    != 0 {
                    vstd::wrapping::u64_specs::wrapping_add(old(self).stats.recreations, 1)
                } else {
                    old(self).stats.recreations
                })
                &&& final(self).stats.peak_nodes == (if fnodes.len() > old(self).stats.peak_nodes {
                    fnodes.len() as int
                } else {
                    old(self).stats.peak_nodes as int
                })
                &&& old(self).nodes@.len() < old(self).cap ==> final(self).stats.evictions == old(self).stats.evictions
                    && final(self).stats.evicted_mass == old(self).stats.evicted_mass && final(self).stats.life
                    == old(self).stats.life && final(self).stats.life_sum == old(self).stats.life_sum
                &&& old(self).nodes@.len() == old(self).cap ==> eviction_counted(
                    old(self).stats,
                    final(self).stats,
                    visits(old(self).nodes@[idx as int]) as u64,
                    old(self).stats_full,
                    (old(self).t - old(self).birth_t@[idx as int]) as u64,
                )
                &&& old(self).nodes@.len() < old(self).cap ==> fnodes.len() == old(self).nodes@.len() + 1
                    && idx == old(self).nodes@.len()
                &&& old(self).nodes@.len() == old(self).cap ==> fnodes.len() == old(self).nodes@.len()
                    && old(self).nodes@[idx as int].leaf_pos != NONE
                &&& forall|i: int, b: int|
                    0 <= i < old(self).nodes@.len() && 0 <= b < 2 && #[trigger] old(self).nodes@[i].child[b]
                        != 0 && old(self).nodes@[i].child[b] != idx ==> fnodes[i].child[b]
                        == old(self).nodes@[i].child[b]
                &&& forall|i: int|
                    0 <= i < old(self).nodes@.len() && i != idx ==> (#[trigger] fnodes[i]).n
                        == old(self).nodes@[i].n && fnodes[i].prio == old(self).nodes@[i].prio
                        && fnodes[i].parent == old(self).nodes@[i].parent
                &&& forall|i: int|
                    0 <= i < old(self).nodes@.len() && i != idx ==> final(self).level@[i]
                        == old(self).level@[i]
                &&& forall|i: int|
                    0 <= i < old(self).nodes@.len() && i != idx ==> (#[trigger] fnodes[i]).logbeta
                        == old(self).nodes@[i].logbeta || (old(self).beta_reset && fnodes[i].logbeta == 0)
            },
    {
        let mut cmin: Option<u64> = None;
        self.last_evicted_prio = 0;
        let ghost old_nodes = self.nodes@;
        let ghost old_level = self.level@;
        proof {
            lemma_level_bound(self.nodes@, self.level@, self.depth as int, -1, parent as int);
        }
        let idx = if let Some(f) = self.free.pop() {
            f
        } else if self.nodes.len() < self.cap {
            self.push_fresh(parent)
        } else {
            let ghost leaves0 = self.leaves@;
            match self.evict(parent) {
                Some((v, mass)) => {
                    cmin = Some(mass);
                    v
                },
                None => {
                    proof {
                        if leaves0.len() != 0 {
                            lemma_first_other_none(leaves0, parent, 0);
                        }
                    }
                    return None;
                },
            }
        };
        // Space-Saving: the node coming in for the one that left starts at
        // c_min + 1, otherwise a fresh node with priority zero would be evicted
        // at once.
        let prio = self.last_evicted_prio.wrapping_add(1);

        // Initial counters by the birth policy.
        let (n0, n1) = match self.birth {
            Birth::Cold => (0, 0),
            Birth::SpaceSaving => match cmin {
                // Inheriting mass makes sense only when the node was born of an
                // eviction, as in Space-Saving, where c_min is taken from the
                // element that left. With free room the start is cold.
                Some(mass) => split_by_ratio(mass, &self.nodes[parent as usize]),
                None => (0, 0),
            },
            Birth::Parent => {
                let p = &self.nodes[parent as usize];
                (p.n[0] / self.gamma, p.n[1] / self.gamma)
            },
        };

        // A repeated creation is recorded before the node is overwritten: the
        // flag lives in the PARENT and says that this slot already had an
        // eviction.
        proof {
            let o = old_nodes[parent as int].evicted_slots;
            let sh = 1u8 << slot as u8;
            if cmin is Some {
                let vp = old_nodes[idx as int].parent as int;
                lemma_parent_link(old_nodes, old_level, self.depth as int, idx as int);
                if vp == parent as int {
                    if old_nodes[vp].child[0] == idx {
                        assert(slot == 1);
                        assert((o | 1u8) & (1u8 << 1u8) == o & (1u8 << 1u8)) by (bit_vector);
                    } else {
                        assert(old_nodes[vp].child[1] == idx);
                        assert(slot == 0);
                        assert((o | 2u8) & (1u8 << 0u8) == o & (1u8 << 0u8)) by (bit_vector);
                    }
                } else {
                    assert(self.nodes@[parent as int] == (Node {
                        leaf_pos: self.nodes@[parent as int].leaf_pos,
                        ..old_nodes[parent as int]
                    }));
                }
            } else {
                assert(self.nodes@[parent as int] == old_nodes[parent as int]);
            }
            assert(self.nodes@[parent as int].evicted_slots & sh == o & sh);
        }
        if self.nodes[parent as usize].evicted_slots & (1u8 << slot) != 0 {
            self.stats.recreations = self.stats.recreations.wrapping_add(1);
        }

        proof {
            assert(self.level@[parent as int] < self.depth);
            lemma_counts_at(self.nodes@, self.t as int, parent as int);
            let pn = self.nodes@[parent as int];
            if self.birth == Birth::Parent {
                assert(pn.n[0] / self.gamma <= pn.n[0]) by (nonlinear_arith)
                    requires
                        self.gamma >= 1,
                ;
                assert(pn.n[1] / self.gamma <= pn.n[1]) by (nonlinear_arith)
                    requires
                        self.gamma >= 1,
                ;
            }
            assert(n0 + n1 <= self.t);
            if old_nodes.len() == self.cap {
                lemma_listed(old_nodes, old(self).leaves@, -1, idx as int);
            }
        }
        let ghost mid = self.nodes@;
        self.attach(parent, slot, idx, n0, n1, prio);
        proof {
            let fnodes = self.nodes@;
            assert forall|i: int, b: int|
                0 <= i < old_nodes.len() && 0 <= b < 2 && #[trigger] old_nodes[i].child[b] != 0
                    && old_nodes[i].child[b] != idx implies fnodes[i].child[b] == old_nodes[i].child[b] by {
                if i == parent {
                    assert(b != slot);
                } else if i == idx {
                    assert(childless(old_nodes[i]));
                } else {
                    assert(fnodes[i] == (Node { leaf_pos: fnodes[i].leaf_pos, ..mid[i] }));
                }
            }
            assert forall|i: int|
                0 <= i < old_nodes.len() && i != idx implies (#[trigger] fnodes[i]).logbeta
                    == old_nodes[i].logbeta || (old(self).beta_reset && fnodes[i].logbeta == 0) by {
                if i != parent {
                    assert(fnodes[i] == (Node { leaf_pos: fnodes[i].leaf_pos, ..mid[i] }));
                }
                if old_nodes.len() == self.cap {
                    let p = old_nodes[idx as int].parent as int;
                    if i != p {
                        assert(mid[i] == (Node { leaf_pos: mid[i].leaf_pos, ..old_nodes[i] }));
                    }
                }
            }
        }
        self.stats.creations = self.stats.creations.wrapping_add(1);
        if self.stats_full {
            if self.birth_t.len() <= idx as usize {
                pad_with_zeros(&mut self.birth_t, idx as usize + 1);
            }
            self.birth_t.set(idx as usize, self.t as u32);
        }
        if self.nodes.len() > self.stats.peak_nodes {
            self.stats.peak_nodes = self.nodes.len();
        }
        Some(idx)
    }

    /// Appends a fresh node, not linked in yet.
    fn push_fresh(&mut self, parent: u32) -> (idx: u32)
        requires
            old(self).wf(),
            old(self).nodes@.len() < old(self).cap,
        ensures
            idx == old(self).nodes@.len(),
            final(self).hole_ok(idx as int),
            final(self).nodes@ == old(self).nodes@.push(final(self).nodes@[idx as int]),
            is_fresh(final(self).nodes@[idx as int], parent, 0, 0, 0),
            final(self).level@.len() == old(self).level@.len() + 1,
            forall|i: int| 0 <= i < old(self).level@.len() ==> #[trigger] final(self).level@[i] == old(self).level@[i],
            final(self).same_except_nodes_leaves_level(old(self)),
            final(self).leaves == old(self).leaves,
    {
        let ghost old_nodes = self.nodes@;
        self.nodes.push(Node::fresh(parent, 0, 0, 0));
        proof {
            assert(self.nodes@ == old_nodes.push(self.nodes@[old_nodes.len() as int]));
        }
        let ghost old_level = self.level@;
        self.level = Ghost(self.level@.push(0int));
        proof {
            lemma_push_hole(old_nodes, self.nodes@, old_level, self.level@, self.depth as int, self.leaves@, self.t as int);
        }
        (self.nodes.len() - 1) as u32
    }

    /// Fills the unlinked node `idx` with a fresh node and links it in as child
    /// `slot` of `parent`.
    #[verifier::rlimit(40)]
    fn attach(&mut self, parent: u32, slot: usize, idx: u32, n0: u32, n1: u32, prio: u32)
        requires
            old(self).hole_ok(idx as int),
            0 < idx < old(self).nodes@.len(),
            parent < old(self).nodes@.len(),
            parent != idx,
            slot < 2,
            old(self).nodes@[parent as int].child[slot as int] == 0,
            old(self).level@[parent as int] < old(self).depth,
            n0 + n1 <= old(self).t,
        ensures
            final(self).hole_ok(-1),
            final(self).nodes@.len() == old(self).nodes@.len(),
            final(self).nodes@[parent as int].child[slot as int] == idx,
            final(self).nodes@[idx as int].n[0] == n0,
            final(self).nodes@[idx as int].n[1] == n1,
            childless(final(self).nodes@[idx as int]),
            final(self).nodes@[idx as int].parent == parent,
            final(self).nodes@[idx as int].prio == prio,
            final(self).nodes@[idx as int].evicted_slots == 0,
            final(self).nodes@[idx as int].logbeta == 0,
            final(self).nodes@[idx as int].leaf_pos != NONE,
            final(self).level@ == old(self).level@.update(idx as int, old(self).level@[parent as int] + 1),
            forall|i: int|
                0 <= i < old(self).nodes@.len() && i != idx && i != parent ==> #[trigger] final(self).nodes@[i]
                    == (Node { leaf_pos: final(self).nodes@[i].leaf_pos, ..old(self).nodes@[i] }),
            final(self).nodes@[parent as int] == (Node {
                leaf_pos: final(self).nodes@[parent as int].leaf_pos,
                child: final(self).nodes@[parent as int].child,
                ..old(self).nodes@[parent as int]
            }),
            final(self).nodes@[parent as int].child[1 - slot] == old(self).nodes@[parent as int].child[1 - slot],
            final(self).same_except_nodes_leaves_level(old(self)),
    {
        let ghost n0s = self.nodes@;
        let ghost lv0 = self.level@;
        proof {
            lemma_listed(n0s, self.leaves@, idx as int, idx as int);
        }
        self.nodes.set(idx as usize, Node::fresh(parent, n0, n1, prio));
        proof {
            lemma_leaf_index_frame(n0s, self.nodes@, self.leaves@);
        }
        let ghost n1s = self.nodes@;
        self.leaf_remove(parent);  // the parent stops being a leaf
        let ghost n2s = self.nodes@;
        self.leaf_add(idx);
        let ghost n3s = self.nodes@;
        let mut pn = self.nodes[parent as usize];
        pn.child[slot] = idx;
        self.nodes.set(parent as usize, pn);
        self.level = Ghost(self.level@.update(idx as int, lv0[parent as int] + 1));
        proof {
            let nodes = self.nodes@;
            let ii = idx as int;
            let pp = parent as int;
            assert forall|i: int| 0 <= i < nodes.len() && i != ii && i != pp implies #[trigger] nodes[i]
                == (Node { leaf_pos: nodes[i].leaf_pos, ..n0s[i] }) && (nodes[i].leaf_pos != NONE
                <==> n0s[i].leaf_pos != NONE) by {
                assert(n1s[i] == n0s[i]);
                assert(n2s[i] == (Node { leaf_pos: n2s[i].leaf_pos, ..n1s[i] }));
                assert(n3s[i] == (Node { leaf_pos: n3s[i].leaf_pos, ..n2s[i] }));
            }
            assert(n2s[pp] == (Node { leaf_pos: n2s[pp].leaf_pos, ..n1s[pp] }));
            assert(n3s[pp] == (Node { leaf_pos: n3s[pp].leaf_pos, ..n2s[pp] }));
            assert(n2s[ii] == (Node { leaf_pos: n2s[ii].leaf_pos, ..n1s[ii] }));
            assert(n3s[ii] == (Node { leaf_pos: n3s[ii].leaf_pos, ..n2s[ii] }));
            assert(nodes[ii] == n3s[ii]);
            assert(nodes[pp].leaf_pos == n3s[pp].leaf_pos);
            lemma_attach(n0s, nodes, lv0, self.level@, self.depth as int, self.t as int, ii, pp, slot as int);
            lemma_leaf_index_frame(n3s, nodes, self.leaves@);
        }
    }

    /// Every field but the arena, the leaf list and the levels is the same in both.
    pub closed spec fn same_except_nodes_leaves_level(&self, other: &Ctw) -> bool {
        &&& self.free == other.free
        &&& self.depth == other.depth
        &&& self.cap == other.cap
        &&& self.hist == other.hist
        &&& self.codelen == other.codelen
        &&& self.victim == other.victim
        &&& self.birth == other.birth
        &&& self.sample == other.sample
        &&& self.lazy_k == other.lazy_k
        &&& self.gamma == other.gamma
        &&& self.beta_reset == other.beta_reset
        &&& self.defer_det == other.defer_det
        &&& self.det_k == other.det_k
        &&& self.verify_sum == other.verify_sum
        &&& self.last_evicted_prio == other.last_evicted_prio
        &&& self.rng == other.rng
        &&& self.t == other.t
        &&& self.stats_full == other.stats_full
        &&& self.birth_t == other.birth_t
        &&& self.occ_every == other.occ_every
        &&& self.stats == other.stats
        &&& self.tab == other.tab
    }

    /// Descends along the current context, creating missing nodes. The path
    /// from the root is written to `path`; the descent stops early at a node
    /// below the lazy threshold, at a deferred deterministic node, or when the
    /// budget is exhausted.
    #[verifier::rlimit(100)]
    pub fn descend(&mut self, path: &mut Vec<u32>) -> (stop: Stop)
        requires
            old(self).wf(),
        ensures
            final(self).wf_pending(),
            descended(*old(self), *final(self), final(path)@, stop),
    {
        // Index 0 is the root, so 0 serves as "no child": the root is nobody's child.
        path.clear();
        path.push(0);
        let mut cur = 0u32;
        let mut stop = Stop::Full;
        let mut d: usize = 0;
        proof {
            lemma_root(self.nodes@, self.level@, self.depth as int, -1);
            let o = self.nodes@;
            assert(path@ =~= seq![0u32]);
            assert(followed(o, path@, self.hist) == 1);
            assert(evicted_on(o, path@, 1) == (0nat, 0nat));
            assert(grown(o, o, path@, 1, self.hist, self.birth, self.gamma));
            let big: int = 0x1_0000_0000_0000_0000;
            vstd::arithmetic::div_mod::lemma_small_mod(self.stats.creations as nat, big as nat);
            vstd::arithmetic::div_mod::lemma_small_mod(self.stats.evictions as nat, big as nat);
            vstd::arithmetic::div_mod::lemma_small_mod(self.stats.evicted_mass as nat, big as nat);
            vstd::arithmetic::div_mod::lemma_small_mod(self.stats.recreations as nat, big as nat);
        }
        while d < self.depth && stop == Stop::Full
            invariant
                self.wf_pending(),
                stop == Stop::Full ==> self.wf(),
                d <= self.depth,
                stop != Stop::Full ==> d < self.depth,
                path@.len() == d + 1,
                path@[d as int] == cur,
                cur < self.nodes@.len(),
                self.level@[cur as int] == d,
                path_ok(self.nodes@, path@),
                forall|e: int|
                    0 <= e < path@.len() - 1 ==> #[trigger] path@[e + 1] == self.nodes@[path@[e] as int].child[hist_bit(
                        old(self).hist,
                        e,
                    )],
                stop != Stop::Full ==> self.nodes@[cur as int].child[hist_bit(old(self).hist, d as int)] == 0,
                stop == Stop::Lazy ==> visits(self.nodes@[cur as int]) < old(self).lazy_k,
                stop == Stop::Deterministic ==> {
                    let nd = self.nodes@[cur as int];
                    &&& old(self).defer_det
                    &&& nd.n[0] == 0 || nd.n[1] == 0
                    &&& visits(nd) >= old(self).det_k
                    &&& visits(nd) >= old(self).lazy_k
                },
                stop == Stop::Budget ==> self.nodes@.len() == old(self).cap && forall|k: int|
                    0 <= k < self.leaves@.len() ==> #[trigger] self.leaves@[k] == cur,
                self.t == old(self).t,
                self.hist == old(self).hist,
                self.codelen == old(self).codelen,
                self.settings() == old(self).settings(),
                self.depth == old(self).depth,
                self.cap == old(self).cap,
                self.occ_every == old(self).occ_every,
                self.stats.occupancy == old(self).stats.occupancy,
                self.stats_full == old(self).stats_full,
                self.nodes@.len() >= old(self).nodes@.len(),
                grown_state(
                    old(self).nodes@,
                    old(self).stats,
                    self.nodes@,
                    self.stats,
                    path@,
                    old(self).hist,
                    old(self).birth,
                    old(self).gamma,
                    old(self).cap as int,
                    old(self).stats_full,
                ),
                forall|i: int|
                    0 <= i < old(self).nodes@.len() && !path@.contains(i as u32) ==> same_place(
                        #[trigger] self.nodes@[i],
                        old(self).nodes@[i],
                    ),
                forall|i: int|
                    0 <= i < old(self).nodes@.len() && !path@.contains(i as u32) ==> #[trigger] self.nodes@[i].logbeta
                        == old(self).nodes@[i].logbeta || (old(self).beta_reset && self.nodes@[i].logbeta == 0),
                forall|i: int, b: int|
                    0 <= i < old(self).nodes@.len() && 0 <= b < 2 && #[trigger] old(self).nodes@[i].child[b] != 0
                        && !path@.contains(old(self).nodes@[i].child[b]) ==> self.nodes@[i].child[b]
                        == old(self).nodes@[i].child[b],
                self.stats.trunc_lazy == old(self).stats.trunc_lazy + (if stop == Stop::Lazy {
                    1int
                } else {
                    0
                }),
                self.stats.trunc_det == old(self).stats.trunc_det + (if stop == Stop::Deterministic {
                    1int
                } else {
                    0
                }),
                self.stats.trunc_budget == old(self).stats.trunc_budget + (if stop == Stop::Budget {
                    1int
                } else {
                    0
                }),
            decreases self.depth - d, if stop == Stop::Full {
                1int
            } else {
                0int
            },
        {
            let h = self.hist;
            let b = ((h >> d) & 1) as usize;
            proof {
                assert(((h >> d) & 1) < 2) by (bit_vector);
                assert(b == hist_bit(h, d as int));
            }
            let mut c = self.nodes[cur as usize].child[b];
            let ghost path0 = path@;
            let ghost nb = self.nodes@;
            if c != 0 {
                proof {
                    let o = old(self).nodes@;
                    assert(followed(o, path0, old(self).hist) == path0.len()) by {
                        if followed(o, path0, old(self).hist) < path0.len() {
                            assert(childless(self.nodes@[path0.last() as int]));
                            assert(path0.last() == cur);
                        }
                    }
                    assert(self.nodes@ == o);
                    lemma_child_link(self.nodes@, self.level@, self.depth as int, cur as int, b as int);
                    lemma_state_follow(o, old(self).stats, self.stats, path0, c, old(self).hist, old(self).birth, old(self).gamma, old(self).cap as int, old(self).stats_full);
                    lemma_child_link(self.nodes@, self.level@, self.depth as int, cur as int, b as int);
                    lemma_extend_path(self.nodes@, path0, c, old(self).hist);
                }
            } else {
                let a0 = self.nodes[cur as usize].n[0];
                let a1 = self.nodes[cur as usize].n[1];
                let visits = a0 as u64 + a1 as u64;
                if visits < self.lazy_k {
                    self.stats.trunc_lazy += 1;
                    stop = Stop::Lazy;
                } else if self.defer_det && (a0 == 0 || a1 == 0) && visits >= self.det_k {
                    // A deterministic node has nothing to split: the child's
                    // counters are a subset of the parent's, so the child is
                    // deterministic the same way with LESS mass and predicts no
                    // better.
                    self.stats.trunc_det += 1;
                    stop = Stop::Deterministic;
                } else {
                    let ghost before = self.nodes@;
                    let ghost leaves_before = self.leaves@;
                    let ghost stats_before = self.stats;
                    let ghost bt_before = self.birth_t@;
                    proof {
                        lemma_level_bound(self.nodes@, self.level@, self.depth as int, -1, cur as int);
                    }
                    match self.alloc_node(cur, b) {
                        Some(idx) => {
                            proof {
                                if (idx as int) < before.len() {
                                    lemma_listed(before, leaves_before, -1, idx as int);
                                }
                                lemma_alloc_keeps_path(before, self.nodes@, path@, idx as int, b as int, old(self).hist);
                                assert forall|k: int| 0 <= k < path0.len() - 1 implies !#[trigger] childless(before[path0[k] as int]) by {
                                    assert(path0[k + 1] == before[path0[k] as int].child[hist_bit(old(self).hist, k)]);
                                    assert(path0[k + 1] != 0);
                                    lemma_hist_bit(old(self).hist, k);
                                }
                                assert(path0.last() == cur);
                                lemma_state_alloc(
                                    old(self).nodes@,
                                    old(self).stats,
                                    before,
                                    stats_before,
                                    self.nodes@,
                                    self.stats,
                                    path0,
                                    idx,
                                    old(self).hist,
                                    old(self).birth,
                                    old(self).gamma,
                                    old(self).cap as int,
                                    old(self).stats_full,
                                    before.len() < old(self).cap,
                                    (old(self).t - bt_before[idx as int]) as u64,
                                );
                            }
                            c = idx;
                        },
                        None => {
                            self.stats.trunc_budget += 1;
                            stop = Stop::Budget;
                        },
                    }
                }
            }
            if stop == Stop::Full {
                cur = c;
                path.push(cur);
                d += 1;
                proof {
                    assert(path@ == path0.push(c));
                    let on = old(self).nodes@;
                    assert forall|i: int| 0 <= i < on.len() && !path@.contains(i as u32) implies same_place(
                        #[trigger] self.nodes@[i],
                        on[i],
                    ) by {
                        assert(!path0.contains(i as u32)) by {
                            if path0.contains(i as u32) {
                                let k = choose|k: int| 0 <= k < path0.len() && path0[k] == i as u32;
                                assert(path@[k] == i as u32);
                            }
                        }
                        assert(i as u32 != c) by {
                            assert(path@[path@.len() - 1] == c);
                        }
                        assert(same_place(nb[i], on[i]));
                    }
                    assert forall|i: int| 0 <= i < on.len() && !path@.contains(i as u32) implies #[trigger] self.nodes@[i].logbeta
                        == on[i].logbeta || (old(self).beta_reset && self.nodes@[i].logbeta == 0) by {
                        assert(!path0.contains(i as u32)) by {
                            if path0.contains(i as u32) {
                                let k = choose|k: int| 0 <= k < path0.len() && path0[k] == i as u32;
                                assert(path@[k] == i as u32);
                            }
                        }
                        assert(i as u32 != c) by {
                            assert(path@[path@.len() - 1] == c);
                        }
                        assert(nb[i].logbeta == on[i].logbeta || (old(self).beta_reset && nb[i].logbeta == 0));
                        assert(self.beta_reset == old(self).beta_reset);
                    }
                    assert forall|i: int, bb: int|
                        0 <= i < on.len() && 0 <= bb < 2 && #[trigger] on[i].child[bb] != 0 && !path@.contains(on[i].child[bb])
                            implies self.nodes@[i].child[bb] == on[i].child[bb] by {
                        let oc = on[i].child[bb];
                        assert(!path0.contains(oc)) by {
                            if path0.contains(oc) {
                                let k = choose|k: int| 0 <= k < path0.len() && path0[k] == oc;
                                assert(path@[k] == oc);
                            }
                        }
                        assert(oc != c) by {
                            assert(path@[path@.len() - 1] == c);
                        }
                        assert(nb[i].child[bb] == oc);
                    }
                }
            }
        }
        stop
    }

    /// Checks that the predictor gives a distribution on this path:
    /// r(0) + r(1) = 1 within the rounding of the tables. It catches exactly
    /// the class of errors that gives a too good compression.
    pub fn check_sums_to_one(&mut self, path: &Vec<u32>) -> (r: Result<(), SumError>)
        requires
            old(self).wf_pending(),
            path_ok(old(self).arena(), path@),
        ensures
            final(self).wf_pending(),
            final(self).arena() == old(self).arena(),
            final(self).same_except_nodes(old(self)),
            r is Ok <==> sum_ok(old(self).arena(), path@),
            r matches Err(e) ==> e == sum_error(old(self).arena(), path@),
    {
        let ghost nodes0 = self.nodes@;
        proof {
            lemma_path_levels(self.nodes@, self.level@, self.depth as int, -1, path@);
            lemma_level_bound(self.nodes@, self.level@, self.depth as int, -1, path@[path@.len() - 1] as int);
            reveal(counts_ok);
            lemma_walk_step_bounds(nodes0, path@, 0, self.t as int);
            lemma_walk_step_bounds(nodes0, path@, 1, self.t as int);
        }
        let r0 = self.walk(path, 0, false);
        proof {
            assert(self.nodes@ =~= nodes0);
        }
        let r1 = self.walk(path, 1, false);
        proof {
            assert(self.nodes@ =~= nodes0);
        }
        let hi = if r0 >= r1 { r0 } else { r1 };
        let lo = if r0 >= r1 { r1 } else { r0 };
        proof {
            assert(-96 * ONE <= r0 <= 63 * ONE);
            assert(-96 * ONE <= r1 <= 63 * ONE);
            lemma_log2_1p_exp2_bounds(lo - hi);
            assert(0 <= log2_1p_exp2_value(lo - hi) <= ONE);
        }
        let total = hi + self.tab.log2_1p_exp2(lo - hi);
        // the tolerance: rounding of the tables accumulated on a path of length <= D
        let tol = (path.len() as i64 + 2) * 64;
        if total > tol || total < -tol {
            Err(SumError { total, tol, path_len: path.len() })
        } else {
            Ok(())
        }
    }

    /// Counts symbol `x` along `path`: log2 of the update ratio r is added to
    /// the code length (the code length of the bit is -log2 r), the log beta
    /// values are written, the counters and priorities of the path's nodes grow
    /// by one, the history takes `x`, and an occupancy sample is taken when due.
    ///
    /// n is the model's parameter (KT), prio the context's frequency
    /// (Space-Saving): they grow together and serve apart, n predicts, prio
    /// decides whom to evict.
    #[verifier::rlimit(80)]
    pub fn account(&mut self, x: usize, path: &Vec<u32>)
        requires
            old(self).wf_pending(),
            path_ok(old(self).arena(), path@),
            x < 2,
            old(self).spec_t() < 0xFFFF_FFFF,
        ensures
            final(self).wf(),
            accounted(*old(self), *final(self), path@, x as int),
    {
        let ghost nodes0 = self.nodes@;
        let ghost t0 = self.t as int;
        let ghost k = path@.len() - 1;
        proof {
            lemma_path_levels(self.nodes@, self.level@, self.depth as int, -1, path@);
            lemma_level_bound(self.nodes@, self.level@, self.depth as int, -1, path@[k] as int);
            reveal(counts_ok);
            lemma_walk_step_bounds(nodes0, path@, x as int, t0);
            lemma_step_scale(t0);
        }
        let logr = self.walk(path, x, true);
        let ghost nodes1 = self.nodes@;
        self.codelen = self.codelen - logr;
        let ghost s1 = *self;
        let mut j: usize = 0;
        while j < path.len()
            invariant
                j <= path@.len(),
                k == path@.len() - 1,
                x < 2,
                self.nodes@.len() == nodes1.len(),
                nodes1.len() == nodes0.len(),
                path_ok(nodes0, path@),
                forall|d1: int, d2: int|
                    0 <= d1 < path@.len() && 0 <= d2 < path@.len() && d1 != d2 ==> #[trigger] path@[d1]
                        != #[trigger] path@[d2],
                forall|i: int| 0 <= i < nodes0.len() ==> visits(#[trigger] nodes0[i]) <= t0,
                forall|i: int| 0 <= i < nodes1.len() ==> (#[trigger] nodes1[i]).n == nodes0[i].n && nodes1[i].prio == nodes0[i].prio,
                t0 < 0xFFFF_FFFF,
                forall|e: int|
                    0 <= e < j ==> counted(nodes1[path@[e] as int], #[trigger] self.nodes@[path@[e] as int], x as int)
                        && self.nodes@[path@[e] as int].logbeta == nodes1[path@[e] as int].logbeta,
                forall|i: int|
                    0 <= i < nodes1.len() && (forall|e: int| 0 <= e < j ==> path@[e] != i) ==> #[trigger] self.nodes@[i]
                        == nodes1[i],
                self.same_except_nodes(&s1),
            decreases path@.len() - j,
        {
            let i = path[j] as usize;
            proof {
                assert(path@[j as int] < nodes0.len());
                assert(forall|e: int| 0 <= e < j ==> path@[e] != i);
                assert(self.nodes@[i as int] == nodes1[i as int]);
                assert(visits(nodes0[i as int]) <= t0);
            }
            let mut nd = self.nodes[i];
            nd.n[x] = nd.n[x] + 1;
            nd.prio = nd.prio.wrapping_add(1);
            self.nodes.set(i, nd);
            proof {
                assert forall|e: int| 0 <= e < j + 1 implies counted(nodes1[path@[e] as int], #[trigger] self.nodes@[path@[e] as int], x as int)
                    && self.nodes@[path@[e] as int].logbeta == nodes1[path@[e] as int].logbeta by {
                    if e < j {
                        assert(path@[e] != path@[j as int]);
                    }
                }
            }
            j += 1;
        }
        self.hist = (self.hist << 1) | x as u64;
        self.t = self.t + 1;
        if self.occ_every != 0 && self.t % self.occ_every == 0 {
            self.stats.occupancy.push((self.t, self.nodes.len() as u32, self.leaves.len() as u32, self.stats.evictions));
        }
        proof {
            let na = self.nodes@;
            let t1 = self.t as int;
            lemma_step_scale(t0);
            lemma_step_scale(t1);
            assert forall|i: int| 0 <= i < na.len() implies #[trigger] na[i].child == nodes0[i].child && na[i].parent
                == nodes0[i].parent && na[i].leaf_pos == nodes0[i].leaf_pos by {
                if exists|e: int| 0 <= e < path@.len() && path@[e] == i {
                    let e = choose|e: int| 0 <= e < path@.len() && path@[e] == i;
                    assert(counted(nodes1[path@[e] as int], na[path@[e] as int], x as int));
                    if e < k {
                        assert(nodes1[path@[e] as int].child == nodes0[path@[e] as int].child);
                    }
                } else {
                    assert(na[i] == nodes1[i]);
                }
            }
            lemma_links_frame(nodes0, na, self.level@, self.depth as int, -1);
            lemma_leaf_index_frame(nodes0, na, self.leaves@);
            lemma_leaf_set_frame(nodes0, na, -1);
            assert forall|i: int| 0 <= i < na.len() implies visits(#[trigger] na[i]) <= t1 && -logbeta_step() * t1
                <= na[i].logbeta <= logbeta_step() * t1 by {
                lemma_counts_at(nodes0, t0, i);
                if exists|e: int| 0 <= e < path@.len() && path@[e] == i {
                    let e = choose|e: int| 0 <= e < path@.len() && path@[e] == i;
                    assert(counted(nodes1[path@[e] as int], na[path@[e] as int], x as int));
                    if e < k {
                        assert(walked_logbeta(nodes0, path@, x as int, e) >= -logbeta_step() * t1);
                    }
                } else {
                    assert(na[i] == nodes1[i]);
                }
            }
            lemma_counts_intro(na, t1);
            assert forall|d: int| 0 <= d < path@.len() implies counted(nodes0[path@[d] as int], #[trigger] na[path@[d] as int], x as int) by {
                assert(counted(nodes1[path@[d] as int], na[path@[d] as int], x as int));
            }
            assert forall|i: int| 0 <= i < nodes0.len() && !path@.contains(i as u32) implies #[trigger] na[i] == nodes0[i] by {
                assert forall|e: int| 0 <= e < path@.len() implies path@[e] != i by {
                    if path@[e] == i {
                        assert(path@[e] == i as u32);
                    }
                }
                assert(na[i] == nodes1[i]);
            }
        }
    }

    /// Processes one bit: descends along the context, checks the distribution
    /// when asked to, and counts the bit. An error means that r(0) + r(1) is not
    /// 1 on this path; the bit is then not counted.
    pub fn update(&mut self, x: usize, path: &mut Vec<u32>) -> (r: Result<(), SumError>)
        requires
            old(self).wf(),
            x < 2,
            old(self).spec_t() < 0xFFFF_FFFF,
        ensures
            exists|mid: Ctw, stop: Stop|
                {
                    &&& #[trigger] descended(*old(self), mid, final(path)@, stop)
                    &&& match r {
                        Ok(_) => {
                            &&& !(mid.settings().verify_sum && !sum_ok(mid.arena(), final(path)@))
                            &&& accounted(mid, *final(self), final(path)@, x as int)
                        },
                        Err(e) => {
                            &&& mid.settings().verify_sum
                            &&& !sum_ok(mid.arena(), final(path)@)
                            &&& e == sum_error(mid.arena(), final(path)@)
                            &&& *final(self) == mid
                        },
                    }
                },
            r is Ok ==> final(self).wf(),
            r is Err ==> final(self).wf_pending(),
    {
        let stop = self.descend(path);
        if self.verify_sum {
            let ghost before_check = *self;
            let c = self.check_sums_to_one(path);
            proof {
                assert(self.arena() == before_check.arena());
                assert(self.leaves == before_check.leaves);
                assert(self.leaf_list() == before_check.leaf_list());
                assert(descended(*old(self), *self, path@, stop));
            }
            if let Err(e) = c {
                return Err(e);
            }
        }
        let ghost mid = *self;
        self.account(x, path);
        proof {
            assert(descended(*old(self), mid, path@, stop));
        }
        Ok(())
    }

    /// Turns on the costly measurements: node lifetimes and occupancy samples,
    /// about 200 of them whatever the size of the corpus. Birth times are kept
    /// in `u32`, so a corpus of more than `u32::MAX` bits gets no lifetimes
    /// (they would silently overflow): the result says whether they are on.
    pub fn enable_stats(&mut self, total_bits: u64) -> (on: bool)
        requires
            old(self).wf(),
        ensures
            final(self).wf(),
            on == (total_bits <= u32::MAX),
            final(self).spec_stats_full() == (on || old(self).spec_stats_full()),
            on ==> final(self).birth_times() == Seq::new(
                if old(self).arena().len() > 1 {
                    old(self).arena().len()
                } else {
                    1nat
                },
                |i: int| 0u32,
            ),
            !on ==> final(self).birth_times() == old(self).birth_times(),
            final(self).spec_occ_every() == (if total_bits / 200 >= 1 {
                total_bits / 200
            } else {
                1
            }),
            final(self).arena() == old(self).arena(),
            final(self).leaf_list() == old(self).leaf_list(),
            final(self).settings() == old(self).settings(),
            final(self).spec_t() == old(self).spec_t(),
            final(self).spec_hist() == old(self).spec_hist(),
            final(self).spec_codelen() == old(self).spec_codelen(),
            final(self).spec_depth() == old(self).spec_depth(),
            final(self).spec_cap() == old(self).spec_cap(),
            final(self).spec_rng() == old(self).spec_rng(),
    {
        let on = total_bits <= u32::MAX as u64;
        if on {
            self.stats_full = true;
            let n = if self.nodes.len() > 1 { self.nodes.len() } else { 1 };
            let mut bt: Vec<u32> = Vec::new();
            pad_with_zeros(&mut bt, n);
            self.birth_t = bt;
            proof {
                assert(self.birth_t@ =~= Seq::new(n as nat, |i: int| 0u32));
            }
        }
        let every = total_bits / 200;
        self.occ_every = if every >= 1 { every } else { 1 };
        on
    }

    /// Birth time of each node, with full statistics.
    pub closed spec fn birth_times(&self) -> Seq<u32> {
        self.birth_t@
    }

    /// Accumulated code length in bits, Q24.
    pub fn codelen(&self) -> (r: i64)
        ensures
            r == self.spec_codelen(),
    {
        self.codelen
    }

    /// Number of processed bits.
    pub fn bits(&self) -> (r: u64)
        ensures
            r == self.spec_t(),
    {
        self.t
    }

    /// Number of nodes in the arena.
    pub fn node_count(&self) -> (r: usize)
        ensures
            r == self.arena().len(),
    {
        self.nodes.len()
    }

    /// Number of evictable leaves.
    pub fn leaf_count(&self) -> (r: usize)
        ensures
            r == self.leaf_list().len(),
    {
        self.leaves.len()
    }

    /// The context depth.
    pub fn depth(&self) -> (r: usize)
        ensures
            r == self.spec_depth(),
    {
        self.depth
    }

    /// The statistics of the run.
    pub fn stats(&self) -> (r: &Stats)
        ensures
            *r == self.spec_stats(),
    {
        &self.stats
    }

    /// Checks the invariants of the structure: within budget, child links
    /// inside the arena and pointing back, exactly the leaves listed. Every
    /// state that this library produces passes.
    #[verifier::rlimit(40)]
    pub fn check_invariants(&self) -> (r: Result<(), InvariantError>)
        ensures
            r is Ok <==> structure_ok(self.arena(), self.free_list(), self.leaf_list().len() as int, self.spec_cap()),
            self.wf() ==> r is Ok,
            r matches Err(InvariantError::OverBudget { nodes, cap }) ==> nodes == self.arena().len() && cap
                == self.spec_cap() && nodes > cap,
            r matches Err(InvariantError::ChildOutside { node, child }) ==> {
                &&& node < self.arena().len()
                &&& !self.free_list().contains(node as u32)
                &&& (self.arena()[node as int].child[0] == child || self.arena()[node as int].child[1] == child)
                &&& child >= self.arena().len()
                &&& forall|j: int| 0 <= j < node && !self.free_list().contains(j as u32) ==> #[trigger] node_ok(self.arena(), j)
            },
            r matches Err(InvariantError::WrongParent { child, node }) ==> {
                &&& node < self.arena().len()
                &&& !self.free_list().contains(node as u32)
                &&& child != 0
                &&& (self.arena()[node as int].child[0] == child || self.arena()[node as int].child[1] == child)
                &&& child < self.arena().len()
                &&& self.arena()[child as int].parent != node as u32
                &&& forall|j: int| 0 <= j < node && !self.free_list().contains(j as u32) ==> #[trigger] node_ok(self.arena(), j)
            },
            r matches Err(InvariantError::LeafNotListed { node }) ==> {
                &&& node < self.arena().len()
                &&& !self.free_list().contains(node as u32)
                &&& node != 0 && childless(self.arena()[node as int])
                &&& self.arena()[node as int].leaf_pos == NONE
                &&& forall|j: int| 0 <= j < node && !self.free_list().contains(j as u32) ==> #[trigger] node_ok(self.arena(), j)
            },
            r matches Err(InvariantError::ListedNotLeaf { node }) ==> {
                &&& node < self.arena().len()
                &&& !self.free_list().contains(node as u32)
                &&& !(node != 0 && childless(self.arena()[node as int]))
                &&& self.arena()[node as int].leaf_pos != NONE
                &&& forall|j: int| 0 <= j < node && !self.free_list().contains(j as u32) ==> #[trigger] node_ok(self.arena(), j)
            },
            r matches Err(InvariantError::LeafListOutOfSync { listed, counted }) ==> {
                &&& listed == self.leaf_list().len()
                &&& counted == count_leaves(self.arena(), self.free_list(), self.arena().len() as int)
                &&& listed != counted
            },
    {
        proof {
            if self.wf() {
                self.lemma_wf_structure_ok();
            }
        }
        if self.nodes.len() > self.cap {
            return Err(InvariantError::OverBudget { nodes: self.nodes.len(), cap: self.cap });
        }
        let mut counted_leaves: usize = 0;
        let mut i: usize = 0;
        while i < self.nodes.len()
            invariant
                i <= self.nodes@.len() <= self.cap,
                counted_leaves == count_leaves(self.nodes@, self.free@, i as int),
                counted_leaves <= i,
                forall|j: int| 0 <= j < i && !self.free@.contains(j as u32) ==> #[trigger] node_ok(self.nodes@, j),
                self.wf() ==> structure_ok(self.nodes@, self.free@, self.leaves@.len() as int, self.cap as int),
            decreases self.nodes@.len() - i,
        {
            if contains_u32(&self.free, i as u32) {
                i += 1;
                continue;
            }
            let nd = self.nodes[i];
            let mut b: usize = 0;
            while b < 2
                invariant
                    b <= 2,
                    i < self.nodes@.len(),
                    nd == self.nodes@[i as int],
                    !self.free@.contains(i as u32),
                    forall|j: int| 0 <= j < i && !self.free@.contains(j as u32) ==> #[trigger] node_ok(self.nodes@, j),
                    self.wf() ==> structure_ok(self.nodes@, self.free@, self.leaves@.len() as int, self.cap as int),
                    forall|bb: int| 0 <= bb < b && #[trigger] nd.child[bb] != 0 ==> nd.child[bb] < self.nodes@.len()
                        && self.nodes@[nd.child[bb] as int].parent == i as u32,
                decreases 2 - b,
            {
                let c = nd.child[b];
                if c != 0 {
                    if c as usize >= self.nodes.len() {
                        proof {
                            assert(!node_ok(self.nodes@, i as int));
                        }
                        return Err(InvariantError::ChildOutside { node: i, child: c });
                    }
                    if self.nodes[c as usize].parent != i as u32 {
                        proof {
                            assert(!node_ok(self.nodes@, i as int));
                        }
                        return Err(InvariantError::WrongParent { child: c, node: i });
                    }
                }
                b += 1;
            }
            if i != 0 && nd.child[0] == 0 && nd.child[1] == 0 {
                counted_leaves += 1;
                if nd.leaf_pos == NONE {
                    proof {
                        assert(!node_ok(self.nodes@, i as int));
                    }
                    return Err(InvariantError::LeafNotListed { node: i });
                }
            } else if nd.leaf_pos != NONE {
                proof {
                    assert(!node_ok(self.nodes@, i as int));
                }
                return Err(InvariantError::ListedNotLeaf { node: i });
            }
            proof {
                assert(node_ok(self.nodes@, i as int));
            }
            i += 1;
        }
        if counted_leaves != self.leaves.len() {
            return Err(InvariantError::LeafListOutOfSync { listed: self.leaves.len(), counted: counted_leaves });
        }
        Ok(())
    }

    /// Nodes set aside for reuse.
    pub closed spec fn free_list(&self) -> Seq<u32> {
        self.free@
    }

    /// Every well-formed predictor passes the structure check.
    pub proof fn lemma_wf_structure_ok(&self)
        requires
            self.wf(),
        ensures
            structure_ok(self.arena(), self.free_list(), self.leaf_list().len() as int, self.spec_cap()),
    {
        let nodes = self.nodes@;
        assert(self.free@ =~= Seq::<u32>::empty());
        lemma_leaf_list_complete(nodes, self.leaves@);
        assert forall|i: int| 0 <= i < nodes.len() && !self.free@.contains(i as u32) implies #[trigger] node_ok(nodes, i) by {
            assert forall|b: int| 0 <= b < 2 && #[trigger] nodes[i].child[b] != 0 implies nodes[i].child[b] < nodes.len()
                && nodes[nodes[i].child[b] as int].parent == i as u32 by {
                lemma_child_link(nodes, self.level@, self.depth as int, i, b);
            }
            lemma_listed(nodes, self.leaves@, -1, i);
        }
    }

    /// Every node but the root shows in the dump: its context, the
    /// child-slot bits from the root down to it, is among the listed contexts.
    pub proof fn lemma_contexts_cover(&self, i: int)
        requires
            self.wf(),
            1 <= i < self.arena().len(),
        ensures
            subtree_contexts(self.arena(), 0, Seq::empty(), (self.spec_depth() + 1) as nat).contains(
                context_of(self.arena(), i, self.spec_depth() as nat),
            ),
    {
        let nodes = self.nodes@;
        lemma_root(nodes, self.level@, self.depth as int, -1);
        lemma_level_bound(nodes, self.level@, self.depth as int, -1, i);
        lemma_context_leads_to(nodes, self.level@, self.depth as int, i, self.depth as nat);
        let c = context_of(nodes, i, self.depth as nat);
        reveal(links_ok);
        assert(c.len() >= 1) by {
            if c.len() == 0 {
                assert(follow(nodes, 0, c) == 0);
            }
        }
        lemma_path_listed(nodes, self.level@, self.depth as int, 0, Seq::empty(), c);
        assert(Seq::<u8>::empty() + c =~= c);
    }

    /// The dump lists exactly one context per node other than the root: as
    /// many contexts as the tree has nodes besides the root.
    pub proof fn lemma_contexts_count(&self)
        requires
            self.wf(),
        ensures
            subtree_contexts(self.arena(), 0, Seq::empty(), (self.spec_depth() + 1) as nat).len() == self.arena().len() - 1,
    {
        let nodes = self.nodes@;
        let lv = self.level@;
        let dp = self.depth as int;
        let all = subtree_contexts(nodes, 0, Seq::empty(), (self.depth + 1) as nat);
        lemma_root(nodes, lv, dp, -1);
        lemma_contexts_distinct(nodes, lv, dp, 0, Seq::empty(), (self.depth + 1) as nat);
        all.unique_seq_to_set();
        let sset = all.to_set();
        let t = vstd::set_lib::set_int_range(1, nodes.len() as int);
        vstd::set_lib::lemma_int_range(1, nodes.len() as int);
        let f = |x: Seq<u8>| follow(nodes, 0, x);
        assert forall|x: Seq<u8>| #[trigger] sset.contains(x) implies 1 <= follow(nodes, 0, x) < nodes.len()
            && context_of(nodes, follow(nodes, 0, x), self.depth as nat) == x by {
            assert(all.contains(x));
            lemma_listed_path(nodes, lv, dp, 0, Seq::empty(), (self.depth + 1) as nat, x);
            let s = choose|s: Seq<u8>|
                #[trigger] follow(nodes, 0, s) >= 0 && x == Seq::<u8>::empty() + s && x.len() >= 1 && forall|j: int|
                    0 <= j < s.len() ==> #[trigger] s[j] == 48 || s[j] == 49;
            assert(Seq::<u8>::empty() + s =~= s);
            lemma_follow_context(nodes, lv, dp, s, s.len() as nat);
            lemma_level_bound(nodes, lv, dp, -1, follow(nodes, 0, s));
            lemma_follow_context(nodes, lv, dp, s, self.depth as nat);
        }
        assert(vstd::relations::injective_on(f, sset)) by {
            assert forall|x1: Seq<u8>, x2: Seq<u8>| sset.contains(x1) && sset.contains(x2) && #[trigger] f(x1) == #[trigger] f(x2)
                implies x1 == x2 by {
                assert(context_of(nodes, follow(nodes, 0, x1), self.depth as nat) == x1);
                assert(context_of(nodes, follow(nodes, 0, x2), self.depth as nat) == x2);
            }
        }
        assert(sset.map(f) =~= t) by {
            assert forall|i: int| #[trigger] t.contains(i) implies sset.map(f).contains(i) by {
                self.lemma_contexts_cover(i);
                let c = context_of(nodes, i, self.depth as nat);
                lemma_level_bound(nodes, lv, dp, -1, i);
                lemma_context_leads_to(nodes, lv, dp, i, self.depth as nat);
                assert(sset.contains(c));
                assert(f(c) == i);
            }
            assert forall|i: int| #[trigger] sset.map(f).contains(i) implies t.contains(i) by {
                let x = choose|x: Seq<u8>| sset.contains(x) && f(x) == i;
            }
        }
        vstd::set_lib::lemma_map_size(sset, t, f);
    }

    /// Nothing but node contexts shows in the dump: each listed context is
    /// the context of a node other than the root.
    pub proof fn lemma_contexts_sound(&self, k: int)
        requires
            self.wf(),
            0 <= k < subtree_contexts(self.arena(), 0, Seq::empty(), (self.spec_depth() + 1) as nat).len(),
        ensures
            exists|i: int|
                1 <= i < self.arena().len() && #[trigger] context_of(self.arena(), i, self.spec_depth() as nat)
                    == subtree_contexts(self.arena(), 0, Seq::empty(), (self.spec_depth() + 1) as nat)[k],
    {
        let nodes = self.nodes@;
        let all = subtree_contexts(nodes, 0, Seq::empty(), (self.depth + 1) as nat);
        let x = all[k];
        lemma_root(nodes, self.level@, self.depth as int, -1);
        assert(all.contains(x));
        lemma_listed_path(nodes, self.level@, self.depth as int, 0, Seq::empty(), (self.depth + 1) as nat, x);
        let s = choose|s: Seq<u8>|
            #[trigger] follow(nodes, 0, s) >= 0 && x == Seq::<u8>::empty() + s && x.len() >= 1 && forall|j: int|
                0 <= j < s.len() ==> #[trigger] s[j] == 48 || s[j] == 49;
        assert(Seq::<u8>::empty() + s =~= s);
        let i = follow(nodes, 0, s);
        lemma_follow_context(nodes, self.level@, self.depth as int, s, s.len() as nat);
        lemma_level_bound(nodes, self.level@, self.depth as int, -1, i);
        lemma_follow_context(nodes, self.level@, self.depth as int, s, self.depth as nat);
    }

    /// The structure of the retained tree: one context per node but the root,
    /// in preorder, written from the most recent symbol on (the bit of depth d
    /// is (hist >> d) & 1). The counters are left out on purpose: they have
    /// been reset by evictions, and the question is how good the structure
    /// itself is.
    pub fn contexts(&self) -> (r: Vec<Vec<u8>>)
        requires
            self.wf(),
        ensures
            r@.len() == subtree_contexts(self.arena(), 0, Seq::empty(), (self.spec_depth() + 1) as nat).len(),
            forall|i: int| 0 <= i < r@.len() ==> #[trigger] r@[i]@ == subtree_contexts(self.arena(), 0, Seq::empty(), (self.spec_depth() + 1) as nat)[i],
    {
        let mut out: Vec<Vec<u8>> = Vec::new();
        let mut prefix: Vec<u8> = Vec::new();
        proof {
            lemma_root(self.nodes@, self.level@, self.depth as int, -1);
        }
        self.collect_contexts(0, &mut prefix, &mut out);
        proof {
            let all = subtree_contexts(self.nodes@, 0, Seq::empty(), (self.depth + 1) as nat);
            assert(prefix@ =~= Seq::<u8>::empty());
            assert forall|i: int| 0 <= i < out@.len() implies #[trigger] out@[i]@ == all[i] by {
                assert(out@[0 + i]@ == all[i]);
            }
        }
        out
    }

    fn collect_contexts(&self, u: u32, prefix: &mut Vec<u8>, out: &mut Vec<Vec<u8>>)
        requires
            self.wf(),
            u < self.nodes@.len(),
            self.level@[u as int] == old(prefix)@.len(),
        ensures
            final(prefix)@ == old(prefix)@,
            final(out)@.len() == old(out)@.len() + subtree_contexts(self.nodes@, u as int, old(prefix)@, (self.depth + 1 - old(prefix)@.len()) as nat).len(),
            forall|i: int| 0 <= i < old(out)@.len() ==> #[trigger] final(out)@[i]@ == old(out)@[i]@,
            forall|i: int| 0 <= i < final(out)@.len() - old(out)@.len() ==> #[trigger] final(out)@[old(out)@.len() + i]@
                == subtree_contexts(self.nodes@, u as int, old(prefix)@, (self.depth + 1 - old(prefix)@.len()) as nat)[i],
        decreases self.depth - self.level@[u as int],
    {
        proof {
            lemma_level_bound(self.nodes@, self.level@, self.depth as int, -1, u as int);
        }
        let ghost p0 = prefix@;
        let ghost o0 = out@;
        let ghost fuel = (self.depth + 1 - p0.len()) as nat;
        let ghost nodes = self.nodes@;
        if prefix.len() > 0 {
            out.push(copy_bytes(prefix));
        }
        let ghost o1 = out@;
        proof {
            let me: Seq<Seq<u8>> = if p0.len() == 0 { Seq::empty() } else { Seq::empty().push(p0) };
            assert(o1.len() == o0.len() + me.len());
            assert forall|i: int| 0 <= i < me.len() implies #[trigger] o1[o0.len() + i]@ == me[i] by {}
        }
        let nd = self.nodes[u as usize];
        let mut b: usize = 0;
        while b < 2
            invariant
                self.wf(),
                nodes == self.nodes@,
                u < nodes.len(),
                nd == nodes[u as int],
                self.level@[u as int] == p0.len(),
                p0.len() <= self.depth,
                fuel == self.depth + 1 - p0.len(),
                prefix@ == p0,
                b <= 2,
                o1.len() >= o0.len(),
                forall|i: int| 0 <= i < o1.len() ==> #[trigger] out@[i]@ == o1[i]@,
                out@.len() == o1.len() + (if b >= 1 && nd.child[0] != 0 {
                    subtree_contexts(nodes, nd.child[0] as int, p0.push(48u8), (fuel - 1) as nat).len()
                } else {
                    0
                }) + (if b >= 2 && nd.child[1] != 0 {
                    subtree_contexts(nodes, nd.child[1] as int, p0.push(49u8), (fuel - 1) as nat).len()
                } else {
                    0
                }),
                forall|i: int| 0 <= i < out@.len() - o1.len() ==> #[trigger] out@[o1.len() + i]@ == (
                    (if b >= 1 && nd.child[0] != 0 {
                        subtree_contexts(nodes, nd.child[0] as int, p0.push(48u8), (fuel - 1) as nat)
                    } else {
                        Seq::empty()
                    }) + (if b >= 2 && nd.child[1] != 0 {
                        subtree_contexts(nodes, nd.child[1] as int, p0.push(49u8), (fuel - 1) as nat)
                    } else {
                        Seq::empty()
                    }))[i],
            decreases 2 - b,
        {
            let c = nd.child[b];
            let ghost ob = out@;
            if c != 0 {
                proof {
                    lemma_child_link(nodes, self.level@, self.depth as int, u as int, b as int);
                    lemma_level_bound(nodes, self.level@, self.depth as int, -1, c as int);
                }
                prefix.push(if b == 0 { 48u8 } else { 49u8 });
                self.collect_contexts(c, prefix, out);
                prefix.pop();
                proof {
                    assert(prefix@ =~= p0);
                }
            }
            proof {
                let a0 = if b >= 1 && nd.child[0] != 0 {
                    subtree_contexts(nodes, nd.child[0] as int, p0.push(48u8), (fuel - 1) as nat)
                } else {
                    Seq::empty()
                };
                assert forall|i: int| 0 <= i < o1.len() implies #[trigger] out@[i]@ == o1[i]@ by {
                    assert(out@[i]@ == ob[i]@);
                }
                if b == 0 {
                    assert forall|i: int| 0 <= i < out@.len() - o1.len() implies #[trigger] out@[o1.len() + i]@ == (
                        (if nd.child[0] != 0 {
                            subtree_contexts(nodes, nd.child[0] as int, p0.push(48u8), (fuel - 1) as nat)
                        } else {
                            Seq::empty()
                        }) + Seq::<Seq<u8>>::empty())[i] by {
                    }
                } else {
                    assert forall|i: int| 0 <= i < out@.len() - o1.len() implies #[trigger] out@[o1.len() + i]@ == (a0 + (if nd.child[1] != 0 {
                        subtree_contexts(nodes, nd.child[1] as int, p0.push(49u8), (fuel - 1) as nat)
                    } else {
                        Seq::empty()
                    }))[i] by {
                        if i < a0.len() {
                            assert(out@[o1.len() + i]@ == ob[o1.len() + i]@);
                        } else {
                            let j = i - a0.len();
                            assert(o1.len() + i == ob.len() + j);
                        }
                    }
                }
            }
            b += 1;
        }
        proof {
            let me: Seq<Seq<u8>> = if p0.len() == 0 { Seq::empty() } else { Seq::empty().push(p0) };
            let s0 = if nd.child[0] != 0 {
                subtree_contexts(nodes, nd.child[0] as int, p0.push(48u8), (fuel - 1) as nat)
            } else {
                Seq::empty()
            };
            let s1 = if nd.child[1] != 0 {
                subtree_contexts(nodes, nd.child[1] as int, p0.push(49u8), (fuel - 1) as nat)
            } else {
                Seq::empty()
            };
            let all = subtree_contexts(nodes, u as int, p0, fuel);
            assert(all == me + s0 + s1);
            assert forall|i: int| 0 <= i < out@.len() - o0.len() implies #[trigger] out@[o0.len() + i]@ == all[i] by {
                if i < me.len() {
                    assert(out@[o0.len() + i]@ == o1[o0.len() + i]@);
                } else {
                    let j = i - me.len();
                    assert(o0.len() + i == o1.len() + j);
                    assert(out@[o1.len() + j]@ == (s0 + s1)[j]);
                }
            }
        }
    }

    /// Every field but the arena and the leaf list is the same in both.
    pub closed spec fn same_except_nodes_leaves(&self, other: &Ctw) -> bool {
        &&& self.free == other.free
        &&& self.depth == other.depth
        &&& self.cap == other.cap
        &&& self.hist == other.hist
        &&& self.codelen == other.codelen
        &&& self.victim == other.victim
        &&& self.birth == other.birth
        &&& self.sample == other.sample
        &&& self.lazy_k == other.lazy_k
        &&& self.gamma == other.gamma
        &&& self.beta_reset == other.beta_reset
        &&& self.defer_det == other.defer_det
        &&& self.det_k == other.det_k
        &&& self.verify_sum == other.verify_sum
        &&& self.last_evicted_prio == other.last_evicted_prio
        &&& self.rng == other.rng
        &&& self.t == other.t
        &&& self.stats_full == other.stats_full
        &&& self.birth_t == other.birth_t
        &&& self.occ_every == other.occ_every
        &&& self.stats == other.stats
        &&& self.tab == other.tab
        &&& self.level == other.level
    }

    /// log2 of the KT conditional probability of symbol x at node i:
    /// (2 n_x + 1) / (2 n + 2). Two integer logarithms, no division.
    fn kt_log_cond(&self, i: usize, x: usize) -> (r: i64)
        requires
            self.tab.wf(),
            i < self.nodes@.len(),
            x < 2,
            visits(self.nodes@[i as int]) < 0x1_0000_0000,
        ensures
            r == kt_log_cond_value(self.nodes@[i as int], x as int),
            -33 * ONE <= r <= 0,
    {
        let nd = &self.nodes[i];
        let num = 2 * nd.n[x] as u64 + 1;
        let den = 2 * (nd.n[0] as u64 + nd.n[1] as u64) + 2;
        proof {
            lemma_kt_log_cond_bounds(*nd, x as int);
            lemma_log2_int_value(num as int);
            lemma_log2_int_value(den as int);
            lemma_log2_floor(num as int);
            lemma_log2_floor(den as int);
            vstd::arithmetic::power2::lemma2_to64();
            vstd::arithmetic::power2::lemma2_to64_rest();
            if log2_floor(den as int) > 33 {
                vstd::arithmetic::power2::lemma_pow2_strictly_increases(34, log2_floor(den as int) as nat);
            }
            assert((log2_floor(den as int) + 1) * ONE <= 34 * ONE) by (nonlinear_arith)
                requires
                    log2_floor(den as int) <= 33,
            ;
            assert(log2_floor(num as int) * ONE >= 0) by (nonlinear_arith)
                requires
                    log2_floor(num as int) >= 0,
            ;
        }
        self.tab.log2_int(num) - self.tab.log2_int(den)
    }
}

/// Settings of a run, fixed before the first bit.
#[derive(Clone, Copy, Debug, PartialEq, Eq, Structural)]
pub struct Settings {
    pub victim: Victim,
    pub birth: Birth,
    pub sample: usize,
    pub lazy_k: u64,
    pub gamma: u32,
    pub beta_reset: bool,
    pub defer_det: bool,
    pub det_k: u64,
    pub verify_sum: bool,
}

impl Ctw {
    /// The arena of nodes.
    pub closed spec fn arena(&self) -> Seq<Node> {
        self.nodes@
    }

    /// The list of evictable leaves.
    pub closed spec fn leaf_list(&self) -> Seq<u32> {
        self.leaves@
    }

    pub closed spec fn spec_depth(&self) -> int {
        self.depth as int
    }

    pub closed spec fn spec_cap(&self) -> int {
        self.cap as int
    }

    pub closed spec fn spec_hist(&self) -> u64 {
        self.hist
    }

    pub closed spec fn spec_codelen(&self) -> int {
        self.codelen as int
    }

    pub closed spec fn spec_t(&self) -> int {
        self.t as int
    }

    pub closed spec fn spec_rng(&self) -> u64 {
        self.rng
    }

    pub closed spec fn spec_stats(&self) -> Stats {
        self.stats
    }

    pub closed spec fn spec_occ_every(&self) -> u64 {
        self.occ_every
    }

    pub closed spec fn spec_stats_full(&self) -> bool {
        self.stats_full
    }
}

} // verus!
