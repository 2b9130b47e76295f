//! The full tree of the contexts met in a corpus, with the counts of the next
//! bit: the input of the cost-complexity comparator. Also the walks over it
//! that do not depend on costs: the leaves of the contracted and the honest
//! comparison classes, and the marking of subtrees that a pruning drops.
//!
//! Same bit model as the predictor: a byte is eight bits, most significant
//! first; the context bit of depth d is (hist >> d) & 1 with
//! hist = (hist << 1) | x, starting from zero.
use vstd::prelude::*;
use crate::ctw::hist_bit;

verus! {

/// A node of the context tree: counts of the next bit and the two children
/// (0: no child; index 0 is the root, which is nobody's child).
#[derive(Clone, Copy, Debug)]
pub struct Node {
    pub n: [u32; 2],
    pub child: [u32; 2],
}

/// Bit t of the corpus: byte t / 8, most significant bit first.
pub open spec fn bit_at(data: Seq<u8>, t: int) -> int {
    ((data[t / 8] >> ((7 - t % 8) as u8)) & 1u8) as int
}

/// Context bit d before bit t: the bit d + 1 steps back, zero before the start.
pub open spec fn ctx_bit(data: Seq<u8>, t: int, d: int) -> int {
    if d < t {
        bit_at(data, t - 1 - d)
    } else {
        0
    }
}

/// The context c (most recent bit first) is the start of the context of bit t.
pub open spec fn matches(data: Seq<u8>, t: int, c: Seq<u8>) -> bool {
    forall|d: int| 0 <= d < c.len() ==> #[trigger] c[d] as int == ctx_bit(data, t, d)
}

/// How many of the first `total` bits equal x and follow the context c.
pub open spec fn count(data: Seq<u8>, total: int, c: Seq<u8>, x: int) -> nat
    decreases total,
{
    if total <= 0 {
        0
    } else {
        count(data, total - 1, c, x) + if matches(data, total - 1, c) && bit_at(data, total - 1) == x {
            1nat
        } else {
            0nat
        }
    }
}

/// `nodes` is the tree of the contexts of length at most `depth` met in the
/// first `total` bits, node i standing for context ctx[i]: the root for the
/// empty context, child b of a node for its context extended by b, a missing
/// child for a context never met, the counters for the next bits after the
/// node's context.
pub open spec fn trie_ok(nodes: Seq<Node>, ctx: Seq<Seq<u8>>, data: Seq<u8>, total: int, depth: int) -> bool {
    &&& nodes.len() >= 1
    &&& ctx.len() == nodes.len()
    &&& ctx[0] == Seq::<u8>::empty()
    &&& forall|i: int| 0 <= i < nodes.len() ==> (#[trigger] ctx[i]).len() <= depth
    &&& forall|i: int, j: int| 0 <= i < nodes.len() && 0 <= j < nodes.len() && i != j ==> #[trigger] ctx[i] != #[trigger] ctx[j]
    &&& forall|i: int, b: int|
        0 <= i < nodes.len() && 0 <= b < 2 && #[trigger] nodes[i].child[b] != 0 ==> {
            let c = nodes[i].child[b] as int;
            &&& c < nodes.len()
            &&& ctx[c] == ctx[i].push(b as u8)
        }
    &&& forall|i: int, b: int|
        0 <= i < nodes.len() && 0 <= b < 2 && #[trigger] nodes[i].child[b] == 0 && ctx[i].len() < depth ==> count(
            data,
            total,
            ctx[i].push(b as u8),
            0,
        ) + count(data, total, ctx[i].push(b as u8), 1) == 0
    &&& forall|i: int, x: int| 0 <= i < nodes.len() && 0 <= x < 2 ==> #[trigger] nodes[i].n[x] == count(data, total, ctx[i], x)
}

/// Every node but the root was met (counts a bit) and hangs under another
/// node: together with `trie_ok`, the tree holds exactly the contexts that
/// occur.
pub open spec fn only_met(nodes: Seq<Node>) -> bool {
    &&& forall|i: int| 1 <= i < nodes.len() ==> #[trigger] mass(nodes[i]) >= 1
    &&& forall|j: int| 0 < j < nodes.len() ==> #[trigger] has_parent(nodes, j)
}

/// Node j is a child of some node.
pub open spec fn has_parent(nodes: Seq<Node>, j: int) -> bool {
    exists|p: int, b: int| 0 <= p < nodes.len() && 0 <= b < 2 && #[trigger] nodes[p].child[b] == j
}

/// Every child comes after its parent in the arena, so a pass from the end
/// meets the children of a node before the node.
pub open spec fn parents_first(nodes: Seq<Node>) -> bool {
    forall|i: int, b: int|
        0 <= i < nodes.len() && 0 <= b < 2 && #[trigger] nodes[i].child[b] != 0 ==> i < nodes[i].child[b] < nodes.len()
}

/// The structure of the tree, without the counters: as `trie_ok` but for the
/// counters and the missing children, plus a parent for every node but the
/// root.
spec fn shape_ok(nodes: Seq<Node>, ctx: Seq<Seq<u8>>, par: Seq<int>, depth: int) -> bool {
    &&& nodes.len() >= 1
    &&& ctx.len() == nodes.len()
    &&& par.len() == nodes.len()
    &&& ctx[0] == Seq::<u8>::empty()
    &&& forall|i: int| 0 <= i < nodes.len() ==> (#[trigger] ctx[i]).len() <= depth
    &&& forall|i: int, j: int| 0 <= i < nodes.len() && 0 <= j < nodes.len() && i != j ==> #[trigger] ctx[i] != #[trigger] ctx[j]
    &&& forall|i: int, b: int|
        0 <= i < nodes.len() && 0 <= b < 2 && #[trigger] nodes[i].child[b] != 0 ==> {
            let c = nodes[i].child[b] as int;
            &&& i < c < nodes.len()
            &&& ctx[c] == ctx[i].push(b as u8)
        }
    &&& forall|j: int|
        0 < j < nodes.len() ==> {
            let p = #[trigger] par[j];
            &&& 0 <= p < nodes.len()
            &&& ctx[j].len() >= 1
            &&& ctx[j] == ctx[p].push(ctx[j].last())
            &&& ctx[j].last() < 2
            &&& nodes[p].child[ctx[j].last() as int] == j
        }
}

/// Extending a context by one bit: the extension matches exactly when the
/// context does and the bit is the next context bit.
pub proof fn lemma_matches_push(data: Seq<u8>, t: int, c: Seq<u8>, b: u8)
    ensures
        matches(data, t, c.push(b)) <==> (matches(data, t, c) && b as int == ctx_bit(data, t, c.len() as int)),
{
    let e = c.push(b);
    if matches(data, t, e) {
        assert forall|d: int| 0 <= d < c.len() implies #[trigger] c[d] as int == ctx_bit(data, t, d) by {
            assert(e[d] == c[d]);
        }
        assert(e[c.len() as int] == b);
    }
    if matches(data, t, c) && b as int == ctx_bit(data, t, c.len() as int) {
        assert forall|d: int| 0 <= d < e.len() implies #[trigger] e[d] as int == ctx_bit(data, t, d) by {
            if d < c.len() {
                assert(e[d] == c[d]);
            }
        }
    }
}

/// A bit of the corpus is 0 or 1, and so is every context bit.
pub proof fn lemma_bits(data: Seq<u8>, t: int, d: int)
    ensures
        0 <= bit_at(data, t) < 2,
        0 <= ctx_bit(data, t, d) < 2,
{
    let byte = data[t / 8];
    let s = (7 - t % 8) as u8;
    assert((byte >> s) & 1u8 < 2u8) by (bit_vector);
    if d < t {
        let byte2 = data[(t - 1 - d) / 8];
        let s2 = (7 - (t - 1 - d) % 8) as u8;
        assert((byte2 >> s2) & 1u8 < 2u8) by (bit_vector);
    }
}

/// Mass conservation: every occurrence of a context is followed by one more
/// context bit, so the counts of a context split between its two extensions.
pub proof fn lemma_count_split(data: Seq<u8>, total: int, c: Seq<u8>, x: int)
    ensures
        count(data, total, c, x) == count(data, total, c.push(0u8), x) + count(data, total, c.push(1u8), x),
    decreases total,
{
    if total > 0 {
        lemma_count_split(data, total - 1, c, x);
        lemma_matches_push(data, total - 1, c, 0u8);
        lemma_matches_push(data, total - 1, c, 1u8);
        lemma_bits(data, total - 1, c.len() as int);
    }
}

/// A context never counts more often than bits were seen.
pub proof fn lemma_count_bound(data: Seq<u8>, total: int, c: Seq<u8>, x: int)
    ensures
        count(data, total, c, x) <= if total < 0 { 0 } else { total },
    decreases total,
{
    if total > 0 {
        lemma_count_bound(data, total - 1, c, x);
    }
}

/// The empty context follows every bit: the root counts all bits.
pub proof fn lemma_count_root(data: Seq<u8>, total: int)
    requires
        total >= 0,
    ensures
        count(data, total, Seq::empty(), 0) + count(data, total, Seq::empty(), 1) == total,
    decreases total,
{
    if total > 0 {
        lemma_count_root(data, total - 1);
        lemma_bits(data, total - 1, 0);
    }
}

/// A context never met has no extension met either.
pub proof fn lemma_count_zero_push(data: Seq<u8>, total: int, c: Seq<u8>, b: u8)
    requires
        count(data, total, c, 0) + count(data, total, c, 1) == 0,
        b < 2,
    ensures
        count(data, total, c.push(b), 0) + count(data, total, c.push(b), 1) == 0,
{
    lemma_count_split(data, total, c, 0);
    lemma_count_split(data, total, c, 1);
}

/// In the tree of a corpus, the counts of a node that is not at full depth are
/// the sums of the counts of its children (a missing child counts zero), and
/// the root counts every bit.
pub proof fn lemma_trie_mass(nodes: Seq<Node>, ctx: Seq<Seq<u8>>, data: Seq<u8>, total: int, depth: int, i: int, x: int)
    requires
        trie_ok(nodes, ctx, data, total, depth),
        total >= 0,
        0 <= i < nodes.len(),
        ctx[i].len() < depth,
        0 <= x < 2,
    ensures
        nodes[i].n[x] == (if nodes[i].child[0] != 0 {
            nodes[nodes[i].child[0] as int].n[x] as int
        } else {
            0
        }) + (if nodes[i].child[1] != 0 {
            nodes[nodes[i].child[1] as int].n[x] as int
        } else {
            0
        }),
        nodes[0].n[0] + nodes[0].n[1] == total,
{
    lemma_count_split(data, total, ctx[i], x);
    assert(nodes[i].child[0] == 0 || nodes[i].child[0] != 0);
    assert(nodes[i].child[1] == 0 || nodes[i].child[1] != 0);
    assert(nodes[i].n[x] == count(data, total, ctx[i], x));
    if nodes[i].child[0] != 0 {
        let c = nodes[i].child[0] as int;
        assert(nodes[c].n[x] == count(data, total, ctx[c], x));
    }
    if nodes[i].child[1] != 0 {
        let c = nodes[i].child[1] as int;
        assert(nodes[c].n[x] == count(data, total, ctx[c], x));
    }
    lemma_count_root(data, total);
    assert(nodes[0].n[0] == count(data, total, ctx[0], 0));
    assert(nodes[0].n[1] == count(data, total, ctx[0], 1));
}

/// Two contexts of one length that both start the context of bit t are equal.
pub proof fn lemma_matches_unique(data: Seq<u8>, t: int, c1: Seq<u8>, c2: Seq<u8>)
    requires
        matches(data, t, c1),
        matches(data, t, c2),
        c1.len() == c2.len(),
    ensures
        c1 == c2,
{
    assert forall|d: int| 0 <= d < c1.len() implies c1[d] == c2[d] by {
        assert(c1[d] as int == ctx_bit(data, t, d));
        assert(c2[d] as int == ctx_bit(data, t, d));
    }
    assert(c1 =~= c2);
}

/// Taking bit x into the history shifts the older bits one place up.
proof fn lemma_hist_push(h: u64, x: u64, d: u64, e: u64)
    by (bit_vector)
    requires
        x < 2,
        d < 63,
        e == d + 1,
    ensures
        (((h << 1u64) | x) >> e) & 1u64 == (h >> d) & 1u64,
        (((h << 1u64) | x) >> 0u64) & 1u64 == x,
{
}

/// The empty history has no set bit.
proof fn lemma_hist_zero(d: u64)
    by (bit_vector)
    ensures
        (0u64 >> d) & 1u64 == 0u64,
{
}

/// Context c is met among the first `total` bits: some bit follows it.
pub open spec fn met(data: Seq<u8>, total: int, c: Seq<u8>) -> bool {
    count(data, total, c, 0) + count(data, total, c, 1) >= 1
}

/// `cs` lists at least n distinct contexts of length at most `depth`, each
/// met in the data.
pub open spec fn many_met(data: Seq<u8>, total: int, depth: int, cs: Seq<Seq<u8>>, n: int) -> bool {
    &&& cs.len() >= n
    &&& cs.no_duplicates()
    &&& forall|i: int| 0 <= i < cs.len() ==> (#[trigger] cs[i]).len() <= depth && met(data, total, cs[i])
}

/// Counting over more bits never counts less.
pub proof fn lemma_count_mono(data: Seq<u8>, t1: int, t2: int, c: Seq<u8>, x: int)
    requires
        t1 <= t2,
    ensures
        count(data, t1, c, x) <= count(data, t2, c, x),
    decreases t2 - t1,
{
    if t1 < t2 {
        lemma_count_mono(data, t1, t2 - 1, c, x);
    }
}

/// While bit t is being counted, the contexts of the tree are all met by
/// the end of the data.
proof fn lemma_all_met(
    nodes: Seq<Node>,
    ctx: Seq<Seq<u8>>,
    par: Seq<int>,
    data: Seq<u8>,
    t: int,
    total: int,
    depth: int,
    d: int,
    x: int,
)
    requires
        shape_ok(nodes, ctx, par, depth),
        0 <= t < total,
        0 <= x < 2,
        x == bit_at(data, t),
        forall|i: int, xx: int| 0 <= i < nodes.len() && 0 <= xx < 2 ==> #[trigger] nodes[i].n[xx] == count(
            data,
            t,
            ctx[i],
            xx,
        ) + (if xx == x && matches(data, t, ctx[i]) && ctx[i].len() <= d {
            1int
        } else {
            0
        }),
        forall|i: int| 1 <= i < nodes.len() ==> #[trigger] mass(nodes[i]) >= 1,
    ensures
        many_met(data, total, depth, ctx, nodes.len() as int),
{
    assert(ctx.no_duplicates()) by {
        assert forall|i: int, j: int| 0 <= i < ctx.len() && 0 <= j < ctx.len() && i != j implies ctx[i] != ctx[j] by {
            assert(ctx[i] != ctx[j]);
        }
    }
    assert forall|i: int| 0 <= i < ctx.len() implies (#[trigger] ctx[i]).len() <= depth && met(data, total, ctx[i]) by {
        if i == 0 {
            lemma_count_root(data, total);
            assert(ctx[0] =~= Seq::<u8>::empty());
        } else {
            let c = ctx[i];
            assert(nodes[i].n[0] == count(data, t, c, 0) + (if 0 == x && matches(data, t, c) && c.len() <= d {
                1int
            } else {
                0
            }));
            assert(nodes[i].n[1] == count(data, t, c, 1) + (if 1 == x && matches(data, t, c) && c.len() <= d {
                1int
            } else {
                0
            }));
            assert(mass(nodes[i]) >= 1);
            assert(count(data, t + 1, c, x) == count(data, t, c, x) + if matches(data, t, c) && bit_at(data, t) == x {
                1nat
            } else {
                0nat
            });
            lemma_count_mono(data, t, t + 1, c, 0);
            lemma_count_mono(data, t, t + 1, c, 1);
            lemma_count_mono(data, t + 1, total, c, 0);
            lemma_count_mono(data, t + 1, total, c, 1);
        }
    }
}

/// Builds the tree of all contexts of length at most `depth` met in the
/// corpus, with the counts of the next bit. `None` only when the tree needs
/// more nodes than `u32` indices reach: at least `u32::MAX` distinct contexts
/// are met, which cannot happen while 8 * data.len() * depth < u32::MAX.
#[verifier::rlimit(80)]
pub fn build_tree(data: &[u8], depth: usize) -> (r: Option<Vec<Node>>)
    requires
        data@.len() <= u32::MAX / 8,
        depth <= 64,
    ensures
        r matches Some(nodes) ==> exists|ctx: Seq<Seq<u8>>|
            #[trigger] trie_ok(nodes@, ctx, data@, (8 * data@.len()) as int, depth as int),
        r matches Some(nodes) ==> parents_first(nodes@) && mass_splits(nodes@) && nodes@.len() <= u32::MAX,
        r matches Some(nodes) ==> only_met(nodes@),
        8 * data@.len() * depth < u32::MAX ==> r is Some,
        r is None ==> exists|cs: Seq<Seq<u8>>|
            #[trigger] many_met(data@, (8 * data@.len()) as int, depth as int, cs, u32::MAX as int),
{
    let mut nodes: Vec<Node> = Vec::new();
    nodes.push(Node { n: [0, 0], child: [0, 0] });
    let ghost mut ctx: Seq<Seq<u8>> = Seq::empty().push(Seq::empty());
    let ghost mut par: Seq<int> = Seq::empty().push(0int);
    let mut hist: u64 = 0;
    let total: usize = data.len() * 8;
    let mut t: usize = 0;
    proof {
        assert forall|d: int| 0 <= d < 64 implies hist_bit(hist, d) == ctx_bit(data@, 0, d) by {
            lemma_hist_zero(d as u64);
        }
    }
    while t < total
        invariant
            total == 8 * data@.len(),
            total <= u32::MAX,
            t <= total,
            depth <= 64,
            shape_ok(nodes@, ctx, par, depth as int),
            forall|i: int, b: int|
                0 <= i < nodes@.len() && 0 <= b < 2 && #[trigger] nodes@[i].child[b] == 0 && ctx[i].len() < depth
                    ==> count(data@, t as int, ctx[i].push(b as u8), 0) + count(data@, t as int, ctx[i].push(b as u8), 1) == 0,
            forall|i: int, x: int| 0 <= i < nodes@.len() && 0 <= x < 2 ==> #[trigger] nodes@[i].n[x] == count(data@, t as int, ctx[i], x),
            forall|d: int| 0 <= d < 64 ==> hist_bit(hist, d) == ctx_bit(data@, t as int, d),
            nodes@.len() <= 1 + t * depth,
            nodes@.len() <= u32::MAX,
            forall|i: int| 1 <= i < nodes@.len() ==> #[trigger] mass(nodes@[i]) >= 1,
        decreases total - t,
    {
        let byte = data[t / 8];
        let s: u8 = (7 - t % 8) as u8;
        let x = ((byte >> s) & 1u8) as usize;
        proof {
            lemma_bits(data@, t as int, 0);
            assert(x == bit_at(data@, t as int));
            lemma_count_bound(data@, t as int, ctx[0], x as int);
        }
        let mut cur: usize = 0;
        let mut nd = nodes[0];
        nd.n[x] = nd.n[x] + 1;
        nodes.set(0, nd);
        let mut d: usize = 0;
        proof {
            assert(matches(data@, t as int, ctx[0]));
            assert forall|i: int, xx: int| 0 <= i < nodes@.len() && 0 <= xx < 2 implies #[trigger] nodes@[i].n[xx]
                == count(data@, t as int, ctx[i], xx) + (if xx == x && matches(data@, t as int, ctx[i]) && ctx[i].len()
                <= 0 {
                1int
            } else {
                0
            }) by {
                if i != 0 && ctx[i].len() <= 0 {
                    assert(ctx[i] =~= ctx[0]);
                }
            }
        }
        while d < depth
            invariant
                total == 8 * data@.len(),
                total <= u32::MAX,
                t < total,
                depth <= 64,
                d <= depth,
                x < 2,
                x == bit_at(data@, t as int),
                shape_ok(nodes@, ctx, par, depth as int),
                cur < nodes@.len(),
                ctx[cur as int].len() == d,
                matches(data@, t as int, ctx[cur as int]),
                forall|i: int, b: int|
                    0 <= i < nodes@.len() && 0 <= b < 2 && #[trigger] nodes@[i].child[b] == 0 && ctx[i].len() < depth
                        ==> count(data@, t as int, ctx[i].push(b as u8), 0) + count(data@, t as int, ctx[i].push(b as u8), 1)
                        == 0 && (ctx[i].len() < d ==> !matches(data@, t as int, ctx[i].push(b as u8))),
                forall|i: int, xx: int| 0 <= i < nodes@.len() && 0 <= xx < 2 ==> #[trigger] nodes@[i].n[xx] == count(
                    data@,
                    t as int,
                    ctx[i],
                    xx,
                ) + (if xx == x && matches(data@, t as int, ctx[i]) && ctx[i].len() <= d {
                    1int
                } else {
                    0
                }),
                forall|e: int| 0 <= e < 64 ==> hist_bit(hist, e) == ctx_bit(data@, t as int, e),
                nodes@.len() <= 1 + t * depth + d,
                nodes@.len() <= u32::MAX,
                forall|i: int| 1 <= i < nodes@.len() ==> #[trigger] mass(nodes@[i]) >= 1,
            decreases depth - d,
        {
            let h = hist;
            let b = ((h >> d) & 1) as usize;
            proof {
                assert(((h >> d) & 1) < 2) by (bit_vector);
                assert(b == hist_bit(h, d as int));
                lemma_bits(data@, t as int, d as int);
            }
            let c = nodes[cur].child[b];
            let ghost old_nodes = nodes@;
            let ghost old_ctx = ctx;
            let ghost bb = b as u8;
            let ghost prev = cur;
            let ghost ext = ctx[cur as int].push(bb);
            proof {
                lemma_matches_push(data@, t as int, ctx[cur as int], bb);
                assert(matches(data@, t as int, ext));
            }
            if c == 0 {
                if nodes.len() >= u32::MAX as usize {
                    proof {
                        assert(t * depth + d <= total * depth - 1) by (nonlinear_arith)
                            requires
                                t < total,
                                d < depth,
                        ;
                        assert(8 * data@.len() * depth == total * depth);
                        lemma_all_met(nodes@, ctx, par, data@, t as int, total as int, depth as int, d as int, x as int);
                        assert(many_met(data@, total as int, depth as int, ctx, u32::MAX as int));
                    }
                    return None;
                }
                let idx = nodes.len() as u32;
                nodes.push(Node { n: [0, 0], child: [0, 0] });
                let mut pn = nodes[cur];
                pn.child[b] = idx;
                nodes.set(cur, pn);
                proof {
                    let j0 = idx as int;
                    // the new context was never met, and no node has it yet
                    assert(count(data@, t as int, ext, 0) + count(data@, t as int, ext, 1) == 0);
                    assert forall|j: int| 0 <= j < old_nodes.len() implies #[trigger] old_ctx[j] != ext by {
                        if old_ctx[j] == ext {
                            assert(j != 0);
                            let p = par[j];
                            assert(old_ctx[j].last() == bb);
                            assert(old_ctx[p] =~= old_ctx[j].drop_last());
                            assert(old_ctx[cur as int] =~= ext.drop_last());
                            assert(p == cur);
                            assert(old_nodes[cur as int].child[b as int] == j);
                        }
                    }
                    ctx = ctx.push(ext);
                    par = par.push(cur as int);
                    assert(ext.last() == bb);
                    assert(ext.drop_last() =~= old_ctx[cur as int]);
                    let nn = nodes@;
                    assert forall|j: int| 0 < j < nn.len() implies {
                        let p = #[trigger] par[j];
                        &&& 0 <= p < nn.len()
                        &&& ctx[j].len() >= 1
                        &&& ctx[j] == ctx[p].push(ctx[j].last())
                        &&& ctx[j].last() < 2
                        &&& nn[p].child[ctx[j].last() as int] == j
                    } by {
                        if j < old_nodes.len() {
                            let p = par[j];
                            if p == cur && ctx[j].last() == bb {
                                assert(old_nodes[cur as int].child[b as int] == j);
                            }
                        } else {
                            assert(ctx[j] =~= ctx[cur as int].push(bb));
                        }
                    }
                    assert forall|i: int, k: int|
                        0 <= i < nn.len() && 0 <= k < nn.len() && i != k implies #[trigger] ctx[i] != #[trigger] ctx[k] by {
                        if i < old_nodes.len() && k < old_nodes.len() {
                            assert(ctx[i] == old_ctx[i] && ctx[k] == old_ctx[k]);
                        } else if i < old_nodes.len() {
                            assert(ctx[i] == old_ctx[i]);
                        } else {
                            assert(ctx[k] == old_ctx[k]);
                        }
                    }
                    assert forall|i: int, b2: int|
                        0 <= i < nn.len() && 0 <= b2 < 2 && #[trigger] nn[i].child[b2] != 0 implies {
                        let c2 = nn[i].child[b2] as int;
                        &&& c2 < nn.len()
                        &&& ctx[c2] == ctx[i].push(b2 as u8)
                    } by {
                        if i < old_nodes.len() && !(i == cur && b2 == b) {
                            assert(nn[i].child[b2] == old_nodes[i].child[b2]);
                        }
                    }
                    assert forall|i: int| 0 <= i < nn.len() implies (#[trigger] ctx[i]).len() <= depth by {
                        if i < old_nodes.len() {
                            assert(ctx[i] == old_ctx[i]);
                        }
                    }
                    assert(shape_ok(nodes@, ctx, par, depth as int));
                    assert forall|i: int, b2: int|
                        0 <= i < nn.len() && 0 <= b2 < 2 && #[trigger] nn[i].child[b2] == 0 && ctx[i].len() < depth
                            implies count(data@, t as int, ctx[i].push(b2 as u8), 0) + count(data@, t as int, ctx[i].push(b2 as u8), 1)
                            == 0 && (ctx[i].len() < d ==> !matches(data@, t as int, ctx[i].push(b2 as u8))) by {
                        if i < old_nodes.len() {
                            assert(ctx[i] == old_ctx[i]);
                            assert(nn[i].child[b2] == old_nodes[i].child[b2]);
                        } else {
                            lemma_count_zero_push(data@, t as int, ext, b2 as u8);
                        }
                    }
                    assert forall|i: int, xx: int| 0 <= i < nn.len() && 0 <= xx < 2 implies #[trigger] nn[i].n[xx] == count(
                        data@,
                        t as int,
                        ctx[i],
                        xx,
                    ) + (if xx == x && matches(data@, t as int, ctx[i]) && ctx[i].len() <= d {
                        1int
                    } else {
                        0
                    }) by {
                        if i < old_nodes.len() {
                            assert(ctx[i] == old_ctx[i]);
                            assert(nn[i].n == old_nodes[i].n);
                        } else {
                            lemma_count_bound(data@, t as int, ext, xx);
                        }
                    }
                }
                cur = idx as usize;
            } else {
                proof {
                    assert(old_nodes[cur as int].child[b as int] != 0);
                }
                cur = c as usize;
            }
            // cur is now the node of the context extended by one bit
            proof {
                assert(ctx[cur as int] == ext);
                assert(nodes@[cur as int].n[x as int] == count(data@, t as int, ext, x as int));
                lemma_count_bound(data@, t as int, ext, x as int);
            }
            let ghost before_inc = nodes@;
            let mut nd = nodes[cur];
            nd.n[x] = nd.n[x] + 1;
            nodes.set(cur, nd);
            proof {
                let nn = nodes@;
                assert forall|i: int| 1 <= i < nn.len() implies #[trigger] mass(nn[i]) >= 1 by {
                    if i != cur {
                        assert(nn[i] == before_inc[i]);
                        if i < old_nodes.len() {
                            assert(before_inc[i].n == old_nodes[i].n);
                        }
                    } else {
                        assert(nn[i].n[x as int] >= 1);
                    }
                }
                assert forall|i: int, b2: int| 0 <= i < nn.len() && 0 <= b2 < 2 implies #[trigger] nn[i].child[b2]
                    == before_inc[i].child[b2] by {
                }
                assert(shape_ok(nodes@, ctx, par, depth as int)) by {
                    assert forall|j: int| 0 < j < nn.len() implies {
                        let p = #[trigger] par[j];
                        &&& 0 <= p < nn.len()
                        &&& ctx[j].len() >= 1
                        &&& ctx[j] == ctx[p].push(ctx[j].last())
                        &&& ctx[j].last() < 2
                        &&& nn[p].child[ctx[j].last() as int] == j
                    } by {
                        let p = par[j];
                        assert(nn[p].child == before_inc[p].child);
                    }
                    assert forall|i: int, b2: int|
                        0 <= i < nn.len() && 0 <= b2 < 2 && #[trigger] nn[i].child[b2] != 0 implies {
                        let c2 = nn[i].child[b2] as int;
                        &&& c2 < nn.len()
                        &&& ctx[c2] == ctx[i].push(b2 as u8)
                    } by {
                        assert(nn[i].child[b2] == before_inc[i].child[b2]);
                    }
                }
                assert forall|i: int, b2: int|
                    0 <= i < nn.len() && 0 <= b2 < 2 && #[trigger] nn[i].child[b2] == 0 && ctx[i].len() < depth implies count(
                        data@,
                        t as int,
                        ctx[i].push(b2 as u8),
                        0,
                    ) + count(data@, t as int, ctx[i].push(b2 as u8), 1) == 0 && (ctx[i].len() < d + 1 ==> !matches(
                        data@,
                        t as int,
                        ctx[i].push(b2 as u8),
                    )) by {
                    assert(nn[i].child[b2] == before_inc[i].child[b2]);
                    if ctx[i].len() == d && matches(data@, t as int, ctx[i].push(b2 as u8)) {
                        lemma_matches_push(data@, t as int, ctx[i], b2 as u8);
                        lemma_matches_unique(data@, t as int, ctx[i], old_ctx[prev as int]);
                    }
                }
                assert forall|i: int, xx: int| 0 <= i < nn.len() && 0 <= xx < 2 implies #[trigger] nn[i].n[xx] == count(
                    data@,
                    t as int,
                    ctx[i],
                    xx,
                ) + (if xx == x && matches(data@, t as int, ctx[i]) && ctx[i].len() <= d + 1 {
                    1int
                } else {
                    0
                }) by {
                    if i != cur && ctx[i].len() == d + 1 && matches(data@, t as int, ctx[i]) {
                        lemma_matches_unique(data@, t as int, ctx[i], ctx[cur as int]);
                    }
                }
            }
            d += 1;
        }
        let ghost old_hist = hist;
        hist = (hist << 1) | x as u64;
        proof {
            let t1 = t as int + 1;
            assert forall|e: int| 0 <= e < 64 implies hist_bit(hist, e) == ctx_bit(data@, t1, e) by {
                if e == 0 {
                    lemma_hist_push(old_hist, x as u64, 0, 1);
                } else {
                    lemma_hist_push(old_hist, x as u64, (e - 1) as u64, e as u64);
                    assert(hist_bit(old_hist, e - 1) == ctx_bit(data@, t as int, e - 1));
                }
            }
            let nn = nodes@;
            assert forall|i: int, b2: int|
                0 <= i < nn.len() && 0 <= b2 < 2 && #[trigger] nn[i].child[b2] == 0 && ctx[i].len() < depth implies count(
                    data@,
                    t1,
                    ctx[i].push(b2 as u8),
                    0,
                ) + count(data@, t1, ctx[i].push(b2 as u8), 1) == 0 by {}
            assert forall|i: int, xx: int| 0 <= i < nn.len() && 0 <= xx < 2 implies #[trigger] nn[i].n[xx] == count(
                data@,
                t1,
                ctx[i],
                xx,
            ) by {
                assert(ctx[i].len() <= depth);
            }
            assert(t * depth + depth == (t + 1) * depth) by (nonlinear_arith);
        }
        t += 1;
    }
    proof {
        assert(trie_ok(nodes@, ctx, data@, (8 * data@.len()) as int, depth as int));
    }
    proof {
        lemma_trie_splits(nodes@, ctx, data@, (8 * data@.len()) as int, depth as int);
        assert forall|j: int| 0 < j < nodes@.len() implies #[trigger] has_parent(nodes@, j) by {
            let p = par[j];
            assert(nodes@[p].child[ctx[j].last() as int] == j);
        }
    }
    let res = Some(nodes);
    proof {
        let nn = res->0;
        assert(nn@ == nodes@);
        assert(trie_ok(nn@, ctx, data@, (8 * data@.len()) as int, depth as int));
    }
    res
}

/// Bits seen at a node.
pub open spec fn mass(nd: Node) -> int {
    nd.n[0] + nd.n[1]
}

/// The node has at least one child.
pub open spec fn has_child(nd: Node) -> bool {
    nd.child[0] != 0 || nd.child[1] != 0
}

/// The bits seen at a node with children are those seen at its children:
/// every bit that reaches it goes on to one of them.
pub open spec fn mass_splits(nodes: Seq<Node>) -> bool {
    forall|i: int|
        0 <= i < nodes.len() && #[trigger] has_child(nodes[i]) ==> mass(nodes[i]) == (if nodes[i].child[0] != 0 {
            mass(nodes[nodes[i].child[0] as int])
        } else {
            0
        }) + (if nodes[i].child[1] != 0 {
            mass(nodes[nodes[i].child[1] as int])
        } else {
            0
        })
}

/// In a trie built from data, a node with children passes all its bits on.
pub proof fn lemma_trie_splits(nodes: Seq<Node>, ctx: Seq<Seq<u8>>, data: Seq<u8>, total: int, depth: int)
    requires
        trie_ok(nodes, ctx, data, total, depth),
        total >= 0,
    ensures
        mass_splits(nodes),
{
    assert forall|i: int| 0 <= i < nodes.len() && #[trigger] has_child(nodes[i]) implies mass(nodes[i]) == (if nodes[i].child[0]
        != 0 {
        mass(nodes[nodes[i].child[0] as int])
    } else {
        0
    }) + (if nodes[i].child[1] != 0 {
        mass(nodes[nodes[i].child[1] as int])
    } else {
        0
    }) by {
        let b = if nodes[i].child[0] != 0 { 0int } else { 1int };
        let c = nodes[i].child[b] as int;
        assert(ctx[c] == ctx[i].push(b as u8));
        assert(ctx[c].len() <= depth);
        lemma_trie_mass(nodes, ctx, data, total, depth, i, 0);
        lemma_trie_mass(nodes, ctx, data, total, depth, i, 1);
    }
}

/// Node u has both children, each after it in the arena.
pub open spec fn full(nodes: Seq<Node>, u: int) -> bool {
    &&& 0 <= u < nodes.len()
    &&& nodes[u].child[0] != 0
    &&& nodes[u].child[1] != 0
    &&& u < nodes[u].child[0] < nodes.len()
    &&& u < nodes[u].child[1] < nodes.len()
}

/// The leaves of the contracted class below u, in the order of a walk that
/// takes child 1 before child 0: a node with both children is split, any
/// other node is a leaf and its subtree is dropped.
pub open spec fn contracted_seq(nodes: Seq<Node>, u: int) -> Seq<u32>
    decreases nodes.len() - u,
{
    if full(nodes, u) {
        contracted_seq(nodes, nodes[u].child[1] as int) + contracted_seq(nodes, nodes[u].child[0] as int)
    } else {
        seq![u as u32]
    }
}

/// Steps of the contracted walk below u.
pub open spec fn contracted_work(nodes: Seq<Node>, u: int) -> nat
    decreases nodes.len() - u,
{
    if full(nodes, u) {
        1 + contracted_work(nodes, nodes[u].child[1] as int) + contracted_work(nodes, nodes[u].child[0] as int)
    } else {
        1
    }
}

/// What a stack of the contracted walk has left to give, top first.
pub open spec fn contracted_stack(nodes: Seq<Node>, st: Seq<u32>) -> Seq<u32>
    decreases st.len(),
{
    if st.len() == 0 {
        Seq::empty()
    } else {
        contracted_seq(nodes, st.last() as int) + contracted_stack(nodes, st.drop_last())
    }
}

/// Steps left to a stack of the contracted walk.
pub open spec fn contracted_stack_work(nodes: Seq<Node>, st: Seq<u32>) -> nat
    decreases st.len(),
{
    if st.len() == 0 {
        0
    } else {
        contracted_work(nodes, st.last() as int) + contracted_stack_work(nodes, st.drop_last())
    }
}

/// Number of nodes of s with a child.
pub open spec fn unary_count(nodes: Seq<Node>, s: Seq<u32>) -> nat
    decreases s.len(),
{
    if s.len() == 0 {
        0
    } else {
        unary_count(nodes, s.drop_last()) + if has_child(nodes[s.last() as int]) {
            1nat
        } else {
            0nat
        }
    }
}

/// Bits seen at the nodes of s with a child.
pub open spec fn unary_mass(nodes: Seq<Node>, s: Seq<u32>) -> int
    decreases s.len(),
{
    if s.len() == 0 {
        0
    } else {
        unary_mass(nodes, s.drop_last()) + if has_child(nodes[s.last() as int]) {
            mass(nodes[s.last() as int])
        } else {
            0
        }
    }
}

/// Bits seen at the nodes of s.
pub open spec fn total_mass(nodes: Seq<Node>, s: Seq<u32>) -> int
    decreases s.len(),
{
    if s.len() == 0 {
        0
    } else {
        total_mass(nodes, s.drop_last()) + mass(nodes[s.last() as int])
    }
}

/// The sums over a sequence split over a concatenation.
pub proof fn lemma_sums_append(nodes: Seq<Node>, a: Seq<u32>, b: Seq<u32>)
    ensures
        unary_count(nodes, a + b) == unary_count(nodes, a) + unary_count(nodes, b),
        unary_mass(nodes, a + b) == unary_mass(nodes, a) + unary_mass(nodes, b),
        total_mass(nodes, a + b) == total_mass(nodes, a) + total_mass(nodes, b),
    decreases b.len(),
{
    if b.len() > 0 {
        assert((a + b).drop_last() =~= a + b.drop_last());
        assert((a + b).last() == b.last());
        lemma_sums_append(nodes, a, b.drop_last());
    } else {
        assert(a + b =~= a);
    }
}

/// The unary part of a sequence is at most all of it.
pub proof fn lemma_unary_bounds(nodes: Seq<Node>, s: Seq<u32>)
    requires
        forall|k: int| 0 <= k < s.len() ==> #[trigger] s[k] < nodes.len(),
    ensures
        unary_count(nodes, s) <= s.len(),
        0 <= unary_mass(nodes, s) <= total_mass(nodes, s),
    decreases s.len(),
{
    if s.len() > 0 {
        assert(s[s.len() - 1] < nodes.len());
        lemma_unary_bounds(nodes, s.drop_last());
    }
}

/// Every node of the contracted walk below u lies in the arena.
pub proof fn lemma_contracted_in(nodes: Seq<Node>, u: int)
    requires
        u <= u32::MAX,
        0 <= u < nodes.len(),
    ensures
        forall|k: int| 0 <= k < contracted_seq(nodes, u).len() ==> #[trigger] contracted_seq(nodes, u)[k] < nodes.len(),
    decreases nodes.len() - u,
{
    if full(nodes, u) {
        let a = contracted_seq(nodes, nodes[u].child[1] as int);
        let b = contracted_seq(nodes, nodes[u].child[0] as int);
        lemma_contracted_in(nodes, nodes[u].child[1] as int);
        lemma_contracted_in(nodes, nodes[u].child[0] as int);
        assert forall|k: int| 0 <= k < (a + b).len() implies #[trigger] (a + b)[k] < nodes.len() by {
            if k < a.len() {
                assert((a + b)[k] == a[k]);
            } else {
                assert((a + b)[k] == b[k - a.len()]);
            }
        }
    }
}

/// The leaves of the contracted class below u see exactly the bits that u
/// sees.
pub proof fn lemma_contracted_mass(nodes: Seq<Node>, u: int)
    requires
        u <= u32::MAX,
        mass_splits(nodes),
        0 <= u < nodes.len(),
    ensures
        total_mass(nodes, contracted_seq(nodes, u)) == mass(nodes[u]),
    decreases nodes.len() - u,
{
    if full(nodes, u) {
        let c0 = nodes[u].child[0] as int;
        let c1 = nodes[u].child[1] as int;
        lemma_contracted_mass(nodes, c1);
        lemma_contracted_mass(nodes, c0);
        lemma_sums_append(nodes, contracted_seq(nodes, c1), contracted_seq(nodes, c0));
        assert(has_child(nodes[u]));
    } else {
        reveal_with_fuel(total_mass, 2);
        assert(seq![u as u32].drop_last() =~= Seq::<u32>::empty());
    }
}

/// The leaves of the contracted class, in the order of a depth-first walk
/// from the root (child 1 first), with the number of those that were cut
/// below a single child, and the bits seen at them.
#[verifier::rlimit(40)]
pub fn contracted_leaves(nodes: &Vec<Node>) -> (r: (Vec<u32>, u64, u64))
    requires
        nodes@.len() >= 1,
        parents_first(nodes@),
        mass_splits(nodes@),
    ensures
        r.0@ == contracted_seq(nodes@, 0),
        r.1 == unary_count(nodes@, r.0@),
        r.2 == unary_mass(nodes@, r.0@),
{
    let mut out: Vec<u32> = Vec::new();
    let mut cuts: u64 = 0;
    let mut cut_mass: u64 = 0;
    let mut st: Vec<u32> = Vec::new();
    st.push(0);
    proof {
        reveal_with_fuel(contracted_stack, 2);
        assert(st@.drop_last() =~= Seq::<u32>::empty());
        assert(out@ + contracted_stack(nodes@, st@) =~= contracted_seq(nodes@, 0));
        lemma_contracted_mass(nodes@, 0);
        lemma_contracted_in(nodes@, 0);
    }
    while st.len() > 0
        invariant
            nodes@.len() >= 1,
            parents_first(nodes@),
            mass_splits(nodes@),
            forall|k: int| 0 <= k < st@.len() ==> #[trigger] st@[k] < nodes@.len(),
            out@ + contracted_stack(nodes@, st@) == contracted_seq(nodes@, 0),
            total_mass(nodes@, contracted_seq(nodes@, 0)) == mass(nodes@[0]),
            forall|k: int| 0 <= k < contracted_seq(nodes@, 0).len() ==> #[trigger] contracted_seq(nodes@, 0)[k] < nodes@.len(),
            cuts == unary_count(nodes@, out@),
            cut_mass == unary_mass(nodes@, out@),
        decreases contracted_stack_work(nodes@, st@),
    {
        let ghost st0 = st@;
        let u = st.pop().unwrap();
        let nd = nodes[u as usize];
        let c0 = nd.child[0];
        let c1 = nd.child[1];
        proof {
            assert(st@ == st0.drop_last());
            assert(u == st0.last());
            assert(u < nodes@.len());
            reveal_with_fuel(contracted_stack, 2);
            reveal_with_fuel(contracted_stack_work, 2);
        }
        if c0 != 0 && c1 != 0 {
            st.push(c0);
            st.push(c1);
            proof {
                let n = nodes@;
                assert(n[u as int].child[0] != 0 && n[u as int].child[1] != 0);
                assert(full(n, u as int));
                let rest = st0.drop_last();
                assert(st@.drop_last() =~= rest.push(c0));
                assert(rest.push(c0).drop_last() =~= rest);
                assert(contracted_stack(n, st@) == contracted_seq(n, c1 as int) + contracted_stack(n, rest.push(c0)));
                assert(contracted_stack(n, rest.push(c0)) == contracted_seq(n, c0 as int) + contracted_stack(n, rest));
                assert(contracted_seq(n, u as int) == contracted_seq(n, c1 as int) + contracted_seq(n, c0 as int));
                assert(contracted_stack(n, st@) =~= contracted_seq(n, u as int) + contracted_stack(n, rest));
                assert(contracted_stack_work(n, st@) == contracted_work(n, c1 as int) + contracted_stack_work(n, rest.push(c0)));
                assert(contracted_stack_work(n, rest.push(c0)) == contracted_work(n, c0 as int) + contracted_stack_work(n, rest));
                assert forall|k: int| 0 <= k < st@.len() implies #[trigger] st@[k] < n.len() by {
                    if k < rest.len() {
                        assert(st@[k] == st0[k]);
                    }
                }
            }
        } else {
            let ghost out0 = out@;
            proof {
                let n = nodes@;
                assert(!full(n, u as int));
                assert(contracted_seq(n, u as int) == seq![u]);
                assert(out0.push(u) =~= out0 + seq![u]);
                assert(out0 + contracted_stack(n, st0) =~= out0.push(u) + contracted_stack(n, st@));
                lemma_sums_append(n, out0.push(u), contracted_stack(n, st@));
                assert forall|k: int| 0 <= k < out0.push(u).len() implies #[trigger] out0.push(u)[k] < n.len() by {
                    assert(out0.push(u)[k] == contracted_seq(n, 0)[k]);
                }
                lemma_unary_bounds(n, out0.push(u));
                assert forall|k: int| 0 <= k < contracted_stack(n, st@).len() implies #[trigger] contracted_stack(n, st@)[k]
                    < n.len() by {
                    assert(contracted_stack(n, st@)[k] == contracted_seq(n, 0)[out0.len() + 1 + k]);
                }
                lemma_unary_bounds(n, contracted_stack(n, st@));
                assert(out0.push(u).drop_last() =~= out0);
                assert(mass(n[0]) <= 2 * 0xFFFF_FFFF);
            }
            out.push(u);
            proof {
                assert(out@.len() == out.len());
            }
            if c0 != 0 || c1 != 0 {
                cuts = cuts + 1;
                cut_mass = cut_mass + nd.n[0] as u64 + nd.n[1] as u64;
            }
        }
    }
    proof {
        assert(out@ + Seq::<u32>::empty() =~= out@);
    }
    (out, cuts, cut_mass)
}


/// Node u has a child, and its children come after it in the arena.
pub open spec fn inner(nodes: Seq<Node>, u: int) -> bool {
    &&& 0 <= u < nodes.len()
    &&& has_child(nodes[u])
    &&& nodes[u].child[0] == 0 || u < nodes[u].child[0] < nodes.len()
    &&& nodes[u].child[1] == 0 || u < nodes[u].child[1] < nodes.len()
}

/// The leaves of the honest class below u, in the order of a walk that takes
/// child 1 before child 0: a node with a child is split, a missing sibling is
/// a leaf with nothing seen (`None`), and a node without children is a leaf.
pub open spec fn honest_seq(nodes: Seq<Node>, u: int) -> Seq<Option<u32>>
    decreases nodes.len() - u,
{
    if inner(nodes, u) {
        let c0 = nodes[u].child[0] as int;
        let c1 = nodes[u].child[1] as int;
        (if c0 == 0 {
            seq![None::<u32>]
        } else {
            Seq::empty()
        }) + (if c1 == 0 {
            seq![None::<u32>]
        } else {
            Seq::empty()
        }) + (if c1 != 0 {
            honest_seq(nodes, c1)
        } else {
            Seq::empty()
        }) + (if c0 != 0 {
            honest_seq(nodes, c0)
        } else {
            Seq::empty()
        })
    } else {
        seq![Some(u as u32)]
    }
}

/// Steps of the honest walk below u.
pub open spec fn honest_work(nodes: Seq<Node>, u: int) -> nat
    decreases nodes.len() - u,
{
    if inner(nodes, u) {
        let c0 = nodes[u].child[0] as int;
        let c1 = nodes[u].child[1] as int;
        1 + (if c1 != 0 {
            honest_work(nodes, c1)
        } else {
            0
        }) + (if c0 != 0 {
            honest_work(nodes, c0)
        } else {
            0
        })
    } else {
        1
    }
}

/// What a stack of the honest walk has left to give, top first.
pub open spec fn honest_stack(nodes: Seq<Node>, st: Seq<u32>) -> Seq<Option<u32>>
    decreases st.len(),
{
    if st.len() == 0 {
        Seq::empty()
    } else {
        honest_seq(nodes, st.last() as int) + honest_stack(nodes, st.drop_last())
    }
}

/// Steps left to a stack of the honest walk.
pub open spec fn honest_stack_work(nodes: Seq<Node>, st: Seq<u32>) -> nat
    decreases st.len(),
{
    if st.len() == 0 {
        0
    } else {
        honest_work(nodes, st.last() as int) + honest_stack_work(nodes, st.drop_last())
    }
}

/// The leaves of the honest class, in the order of a depth-first walk from
/// the root (child 1 first): `Some(u)` for node u without children, `None`
/// for the missing sibling of a single child.
#[verifier::rlimit(40)]
pub fn honest_leaves(nodes: &Vec<Node>) -> (r: Vec<Option<u32>>)
    requires
        nodes@.len() >= 1,
        parents_first(nodes@),
    ensures
        r@ == honest_seq(nodes@, 0),
{
    let mut out: Vec<Option<u32>> = Vec::new();
    let mut st: Vec<u32> = Vec::new();
    st.push(0);
    proof {
        reveal_with_fuel(honest_stack, 2);
        assert(st@.drop_last() =~= Seq::<u32>::empty());
        assert(out@ + honest_stack(nodes@, st@) =~= honest_seq(nodes@, 0));
    }
    while st.len() > 0
        invariant
            nodes@.len() >= 1,
            parents_first(nodes@),
            forall|k: int| 0 <= k < st@.len() ==> #[trigger] st@[k] < nodes@.len(),
            out@ + honest_stack(nodes@, st@) == honest_seq(nodes@, 0),
        decreases honest_stack_work(nodes@, st@),
    {
        let ghost st0 = st@;
        let ghost out0 = out@;
        let u = st.pop().unwrap();
        let nd = nodes[u as usize];
        let c0 = nd.child[0];
        let c1 = nd.child[1];
        let ghost rest = st@;
        proof {
            assert(rest == st0.drop_last());
            assert(u == st0.last());
            assert(u < nodes@.len());
            reveal_with_fuel(honest_stack, 2);
            reveal_with_fuel(honest_stack_work, 2);
            assert(honest_stack(nodes@, st0) == honest_seq(nodes@, u as int) + honest_stack(nodes@, rest));
            assert(honest_stack_work(nodes@, st0) == honest_work(nodes@, u as int) + honest_stack_work(nodes@, rest));
        }
        if c0 != 0 || c1 != 0 {
            proof {
                assert(nodes@[u as int].child[0] == c0 && nodes@[u as int].child[1] == c1);
                assert(c0 != 0 ==> nodes@[u as int].child[0] != 0);
                assert(c1 != 0 ==> nodes@[u as int].child[1] != 0);
                assert(inner(nodes@, u as int));
            }
            if c0 != 0 {
                st.push(c0);
            } else {
                out.push(None);
            }
            if c1 != 0 {
                st.push(c1);
            } else {
                out.push(None);
            }
            proof {
                let n = nodes@;
                let e = Seq::<Option<u32>>::empty();
                let hs = honest_seq(n, u as int);
                reveal_with_fuel(honest_stack, 3);
                reveal_with_fuel(honest_stack_work, 3);
                if c0 != 0 && c1 != 0 {
                    assert(st@ =~= rest.push(c0).push(c1));
                    assert(st@.drop_last() =~= rest.push(c0));
                    assert(rest.push(c0).drop_last() =~= rest);
                    assert(hs =~= honest_seq(n, c1 as int) + honest_seq(n, c0 as int));
                    assert(out@ == out0);
                    assert(honest_stack(n, st@) =~= hs + honest_stack(n, rest));
                } else if c0 != 0 {
                    assert(st@ =~= rest.push(c0));
                    assert(st@.drop_last() =~= rest);
                    assert(hs =~= seq![None::<u32>] + honest_seq(n, c0 as int));
                    assert(out@ =~= out0 + seq![None::<u32>]);
                    assert(out@ + honest_stack(n, st@) =~= out0 + (hs + honest_stack(n, rest)));
                } else {
                    assert(st@ =~= rest.push(c1));
                    assert(st@.drop_last() =~= rest);
                    assert(hs =~= seq![None::<u32>] + honest_seq(n, c1 as int));
                    assert(out@ =~= out0 + seq![None::<u32>]);
                    assert(out@ + honest_stack(n, st@) =~= out0 + (hs + honest_stack(n, rest)));
                }
                assert forall|k: int| 0 <= k < st@.len() implies #[trigger] st@[k] < n.len() by {
                    if k < rest.len() {
                        assert(st@[k] == st0[k]);
                    }
                }
            }
        } else {
            out.push(Some(u));
            proof {
                let n = nodes@;
                assert(!inner(n, u as int));
                assert(honest_seq(n, u as int) == seq![Some(u)]);
                assert(out@ =~= out0 + seq![Some(u)]);
                assert(out@ + honest_stack(n, st@) =~= out0 + (honest_seq(n, u as int) + honest_stack(n, rest)));
                assert forall|k: int| 0 <= k < st@.len() implies #[trigger] st@[k] < n.len() by {
                    assert(st@[k] == st0[k]);
                }
            }
        }
    }
    proof {
        assert(out@ + Seq::<Option<u32>>::empty() =~= out@);
    }
    out
}

/// Bits seen at the real leaves of s; a missing sibling sees none.
pub open spec fn leaf_mass(nodes: Seq<Node>, s: Seq<Option<u32>>) -> int
    decreases s.len(),
{
    if s.len() == 0 {
        0
    } else {
        leaf_mass(nodes, s.drop_last()) + match s.last() {
            Some(w) => mass(nodes[w as int]),
            None => 0,
        }
    }
}

/// The mass of the leaves splits over a concatenation.
pub proof fn lemma_leaf_mass_append(nodes: Seq<Node>, a: Seq<Option<u32>>, b: Seq<Option<u32>>)
    ensures
        leaf_mass(nodes, a + b) == leaf_mass(nodes, a) + leaf_mass(nodes, b),
    decreases b.len(),
{
    if b.len() > 0 {
        assert((a + b).drop_last() =~= a + b.drop_last());
        assert((a + b).last() == b.last());
        lemma_leaf_mass_append(nodes, a, b.drop_last());
    } else {
        assert(a + b =~= a);
    }
}

/// Each class accounts for every bit once: the leaves of the honest class
/// below u see exactly the bits that u sees, and so do those of the
/// contracted class.
pub proof fn lemma_classes_mass(nodes: Seq<Node>, u: int)
    requires
        mass_splits(nodes),
        0 <= u < nodes.len(),
        u <= u32::MAX,
    ensures
        leaf_mass(nodes, honest_seq(nodes, u)) == mass(nodes[u]),
        total_mass(nodes, contracted_seq(nodes, u)) == mass(nodes[u]),
    decreases nodes.len() - u,
{
    lemma_contracted_mass(nodes, u);
    if inner(nodes, u) {
        let c0 = nodes[u].child[0] as int;
        let c1 = nodes[u].child[1] as int;
        let none = seq![None::<u32>];
        let e = Seq::<Option<u32>>::empty();
        reveal_with_fuel(leaf_mass, 2);
        assert(none.drop_last() =~= e);
        let a = if c0 == 0 { none } else { e };
        let b = if c1 == 0 { none } else { e };
        let h1 = if c1 != 0 { honest_seq(nodes, c1) } else { e };
        let h0 = if c0 != 0 { honest_seq(nodes, c0) } else { e };
        if c1 != 0 {
            lemma_classes_mass(nodes, c1);
        }
        if c0 != 0 {
            lemma_classes_mass(nodes, c0);
        }
        lemma_leaf_mass_append(nodes, a, b);
        lemma_leaf_mass_append(nodes, a + b, h1);
        lemma_leaf_mass_append(nodes, a + b + h1, h0);
        assert(honest_seq(nodes, u) == a + b + h1 + h0);
    } else {
        reveal_with_fuel(leaf_mass, 2);
        assert(seq![Some(u as u32)].drop_last() =~= Seq::<Option<u32>>::empty());
    }
}

/// The honest class is finer than the contracted one: below every node it
/// has at least as many leaves.
pub proof fn lemma_honest_finer(nodes: Seq<Node>, u: int)
    requires
        0 <= u < nodes.len(),
    ensures
        honest_seq(nodes, u).len() >= contracted_seq(nodes, u).len(),
        honest_seq(nodes, u).len() >= 1,
    decreases nodes.len() - u,
{
    if full(nodes, u) {
        let c0 = nodes[u].child[0] as int;
        let c1 = nodes[u].child[1] as int;
        lemma_honest_finer(nodes, c0);
        lemma_honest_finer(nodes, c1);
        assert(inner(nodes, u));
    } else if inner(nodes, u) {
        let c0 = nodes[u].child[0] as int;
        let c1 = nodes[u].child[1] as int;
        if c0 != 0 {
            lemma_honest_finer(nodes, c0);
        }
        if c1 != 0 {
            lemma_honest_finer(nodes, c1);
        }
    }
}

/// w is u or lies below it, following children that come after their
/// parents.
pub open spec fn in_subtree(nodes: Seq<Node>, u: int, w: int) -> bool
    decreases nodes.len() - u,
{
    if u == w {
        true
    } else if 0 <= u < nodes.len() {
        let c0 = nodes[u].child[0] as int;
        let c1 = nodes[u].child[1] as int;
        (c0 != 0 && u < c0 < nodes.len() && in_subtree(nodes, c0, w)) || (c1 != 0 && u < c1 < nodes.len() && in_subtree(
            nodes,
            c1,
            w,
        ))
    } else {
        false
    }
}

/// Steps of a walk over the whole subtree of u.
pub open spec fn subtree_work(nodes: Seq<Node>, u: int) -> nat
    decreases nodes.len() - u,
{
    if 0 <= u < nodes.len() {
        let c0 = nodes[u].child[0] as int;
        let c1 = nodes[u].child[1] as int;
        1 + (if c0 != 0 && u < c0 < nodes.len() {
            subtree_work(nodes, c0)
        } else {
            0
        }) + (if c1 != 0 && u < c1 < nodes.len() {
            subtree_work(nodes, c1)
        } else {
            0
        })
    } else {
        1
    }
}

/// Steps left to a stack of a walk over subtrees.
pub open spec fn stack_work(nodes: Seq<Node>, st: Seq<u32>) -> nat
    decreases st.len(),
{
    if st.len() == 0 {
        0
    } else {
        subtree_work(nodes, st.last() as int) + stack_work(nodes, st.drop_last())
    }
}

/// Below a node of the subtree of u lies only the subtree of u.
pub proof fn lemma_subtree_trans(nodes: Seq<Node>, u: int, v: int, w: int)
    requires
        in_subtree(nodes, u, v),
        in_subtree(nodes, v, w),
    ensures
        in_subtree(nodes, u, w),
    decreases nodes.len() - u,
{
    if u != v {
        let c0 = nodes[u].child[0] as int;
        let c1 = nodes[u].child[1] as int;
        if c0 != 0 && u < c0 < nodes.len() && in_subtree(nodes, c0, v) {
            lemma_subtree_trans(nodes, c0, v, w);
        } else {
            lemma_subtree_trans(nodes, c1, v, w);
        }
    }
}

/// Marks the subtree of u dead (no leaves) in `leaves`, u included.
#[verifier::rlimit(40)]
pub fn kill_subtree(leaves: &mut Vec<u32>, nodes: &Vec<Node>, u: u32)
    requires
        parents_first(nodes@),
        old(leaves)@.len() == nodes@.len(),
        u < nodes@.len(),
    ensures
        final(leaves)@.len() == old(leaves)@.len(),
        forall|w: int|
            0 <= w < nodes@.len() ==> #[trigger] final(leaves)@[w] == if in_subtree(nodes@, u as int, w) {
                0
            } else {
                old(leaves)@[w]
            },
{
    let mut st: Vec<u32> = Vec::new();
    st.push(u);
    proof {
        assert(st@[0] == u);
    }
    while st.len() > 0
        invariant
            parents_first(nodes@),
            leaves@.len() == nodes@.len(),
            old(leaves)@.len() == nodes@.len(),
            u < nodes@.len(),
            forall|k: int| 0 <= k < st@.len() ==> #[trigger] st@[k] < nodes@.len() && in_subtree(nodes@, u as int, st@[k] as int),
            forall|w: int|
                0 <= w < nodes@.len() ==> #[trigger] leaves@[w] == old(leaves)@[w] || (leaves@[w] == 0 && in_subtree(
                    nodes@,
                    u as int,
                    w,
                )),
            forall|w: int|
                0 <= w < nodes@.len() && #[trigger] in_subtree(nodes@, u as int, w) ==> leaves@[w] == 0 || exists|k: int|
                    0 <= k < st@.len() && in_subtree(nodes@, st@[k] as int, w),
        decreases stack_work(nodes@, st@),
    {
        let ghost st0 = st@;
        let v = st.pop().unwrap();
        let ghost rest = st@;
        proof {
            assert(rest == st0.drop_last());
            assert(v == st0.last());
            assert(st0[st0.len() - 1] == v);
            reveal_with_fuel(stack_work, 2);
        }
        leaves.set(v as usize, 0);
        let c0 = nodes[v as usize].child[0];
        let c1 = nodes[v as usize].child[1];
        if c0 != 0 {
            st.push(c0);
        }
        if c1 != 0 {
            st.push(c1);
        }
        proof {
            let n = nodes@;
            let vi = v as int;
            reveal_with_fuel(stack_work, 3);
            assert(c0 != 0 ==> n[vi].child[0] != 0 && vi < c0 < n.len());
            assert(c1 != 0 ==> n[vi].child[1] != 0 && vi < c1 < n.len());
            if c0 != 0 {
                assert(in_subtree(n, c0 as int, c0 as int));
                assert(in_subtree(n, vi, c0 as int));
                lemma_subtree_trans(n, u as int, vi, c0 as int);
            }
            if c1 != 0 {
                assert(in_subtree(n, c1 as int, c1 as int));
                assert(in_subtree(n, vi, c1 as int));
                lemma_subtree_trans(n, u as int, vi, c1 as int);
            }
            if c0 != 0 && c1 != 0 {
                assert(st@ =~= rest.push(c0).push(c1));
                assert(st@.drop_last() =~= rest.push(c0));
                assert(rest.push(c0).drop_last() =~= rest);
            } else if c0 != 0 {
                assert(st@ =~= rest.push(c0));
                assert(st@.drop_last() =~= rest);
            } else if c1 != 0 {
                assert(st@ =~= rest.push(c1));
                assert(st@.drop_last() =~= rest);
            } else {
                assert(st@ =~= rest);
            }
            assert(subtree_work(n, vi) == 1 + (if c0 != 0 { subtree_work(n, c0 as int) } else { 0 }) + (if c1 != 0 {
                subtree_work(n, c1 as int)
            } else {
                0
            }));
            assert forall|k: int| 0 <= k < st@.len() implies #[trigger] st@[k] < n.len() && in_subtree(n, u as int, st@[k] as int) by {
                if k < rest.len() {
                    assert(st@[k] == st0[k]);
                }
            }
            assert forall|w: int| 0 <= w < n.len() && #[trigger] in_subtree(n, u as int, w) implies leaves@[w] == 0 || exists|k: int|
                0 <= k < st@.len() && in_subtree(n, st@[k] as int, w) by {
                if leaves@[w] != 0 {
                    assert(w != vi);
                    let k = choose|k: int| 0 <= k < st0.len() && in_subtree(n, st0[k] as int, w);
                    if k < rest.len() {
                        assert(st@[k] == st0[k]);
                    } else {
                        assert(st0[k] == v);
                        if c0 != 0 && in_subtree(n, c0 as int, w) {
                            if c1 != 0 {
                                assert(st@[st@.len() - 2] == c0);
                            } else {
                                assert(st@[st@.len() - 1] == c0);
                            }
                        } else {
                            assert(c1 != 0 && in_subtree(n, c1 as int, w));
                            assert(st@[st@.len() - 1] == c1);
                        }
                    }
                }
            }
        }
    }
    proof {
        let n = nodes@;
        assert forall|w: int| 0 <= w < n.len() implies #[trigger] leaves@[w] == if in_subtree(n, u as int, w) {
            0
        } else {
            old(leaves)@[w]
        } by {
            if in_subtree(n, u as int, w) {
                assert(leaves@[w] == 0 || exists|k: int| 0 <= k < st@.len() && in_subtree(n, st@[k] as int, w));
            }
        }
    }
}

/// w is u or is reached from u going down through children that come after
/// their parents, without going below a node that counts one leaf.
pub open spec fn reached(nodes: Seq<Node>, leaves: Seq<u32>, u: int, w: int) -> bool
    decreases nodes.len() - u,
{
    if u == w {
        true
    } else if 0 <= u < nodes.len() && leaves[u] != 1 {
        let c0 = nodes[u].child[0] as int;
        let c1 = nodes[u].child[1] as int;
        (c0 != 0 && u < c0 < nodes.len() && reached(nodes, leaves, c0, w)) || (c1 != 0 && u < c1 < nodes.len()
            && reached(nodes, leaves, c1, w))
    } else {
        false
    }
}

/// Reaching is transitive.
pub proof fn lemma_reached_trans(nodes: Seq<Node>, leaves: Seq<u32>, u: int, v: int, w: int)
    requires
        reached(nodes, leaves, u, v),
        reached(nodes, leaves, v, w),
    ensures
        reached(nodes, leaves, u, w),
    decreases nodes.len() - u,
{
    if u != v {
        let c0 = nodes[u].child[0] as int;
        let c1 = nodes[u].child[1] as int;
        if c0 != 0 && u < c0 < nodes.len() && reached(nodes, leaves, c0, v) {
            lemma_reached_trans(nodes, leaves, c0, v, w);
        } else {
            lemma_reached_trans(nodes, leaves, c1, v, w);
        }
    }
}

/// A node counted as one leaf although it has children: the tree was cut
/// there.
pub open spec fn collapsed(nodes: Seq<Node>, leaves: Seq<u32>, u: int) -> bool {
    leaves[u] == 1 && has_child(nodes[u])
}

/// Where some node with children counts one leaf, marks dead (no leaves)
/// every node that the root no longer reaches.
#[verifier::rlimit(40)]
pub fn drop_unreached(leaves: &mut Vec<u32>, nodes: &Vec<Node>)
    requires
        nodes@.len() >= 1,
        parents_first(nodes@),
        old(leaves)@.len() == nodes@.len(),
    ensures
        final(leaves)@.len() == old(leaves)@.len(),
        (exists|u: int| 0 <= u < nodes@.len() && #[trigger] collapsed(nodes@, old(leaves)@, u)) ==> forall|w: int|
            0 <= w < nodes@.len() ==> #[trigger] final(leaves)@[w] == if reached(nodes@, old(leaves)@, 0, w) {
                old(leaves)@[w]
            } else {
                0
            },
        !(exists|u: int| 0 <= u < nodes@.len() && #[trigger] collapsed(nodes@, old(leaves)@, u)) ==> final(leaves)@
            == old(leaves)@,
{
    let n = nodes.len();
    let mut any = false;
    let mut i: usize = 0;
    while i < n
        invariant
            n == nodes@.len(),
            leaves@.len() == n,
            i <= n,
            any <==> exists|u: int| 0 <= u < i && #[trigger] collapsed(nodes@, leaves@, u),
        decreases n - i,
    {
        let nd = nodes[i];
        if leaves[i] == 1 && (nd.child[0] != 0 || nd.child[1] != 0) {
            proof {
                assert(collapsed(nodes@, leaves@, i as int));
            }
            any = true;
        }
        i += 1;
    }
    if !any {
        return;
    }
    let ghost lv = leaves@;
    let mut reach: Vec<bool> = Vec::new();
    let mut j: usize = 0;
    while j < n
        invariant
            n == nodes@.len(),
            j <= n,
            reach@.len() == j,
            forall|w: int| 0 <= w < j ==> !#[trigger] reach@[w],
        decreases n - j,
    {
        reach.push(false);
        j += 1;
    }
    let mut st: Vec<u32> = Vec::new();
    st.push(0);
    proof {
        assert(st@[0] == 0);
    }
    while st.len() > 0
        invariant
            n == nodes@.len(),
            n >= 1,
            parents_first(nodes@),
            leaves@ == lv,
            lv.len() == n,
            reach@.len() == n,
            forall|k: int| 0 <= k < st@.len() ==> #[trigger] st@[k] < n && reached(nodes@, lv, 0, st@[k] as int),
            forall|w: int| 0 <= w < n && #[trigger] reach@[w] ==> reached(nodes@, lv, 0, w),
            forall|w: int|
                0 <= w < n && #[trigger] reached(nodes@, lv, 0, w) ==> reach@[w] || exists|k: int|
                    0 <= k < st@.len() && reached(nodes@, lv, st@[k] as int, w),
        decreases stack_work(nodes@, st@),
    {
        let ghost st0 = st@;
        let w = st.pop().unwrap();
        let ghost rest = st@;
        proof {
            assert(rest == st0.drop_last());
            assert(w == st0.last());
            assert(st0[st0.len() - 1] == w);
            reveal_with_fuel(stack_work, 2);
        }
        reach.set(w as usize, true);
        if leaves[w as usize] != 1 {
            let c0 = nodes[w as usize].child[0];
            let c1 = nodes[w as usize].child[1];
            if c0 != 0 {
                st.push(c0);
            }
            if c1 != 0 {
                st.push(c1);
            }
            proof {
                let nn = nodes@;
                let wi = w as int;
                reveal_with_fuel(stack_work, 3);
                assert(c0 != 0 ==> nn[wi].child[0] != 0 && wi < c0 < n);
                assert(c1 != 0 ==> nn[wi].child[1] != 0 && wi < c1 < n);
                if c0 != 0 {
                    assert(reached(nn, lv, c0 as int, c0 as int));
                    assert(reached(nn, lv, wi, c0 as int));
                    lemma_reached_trans(nn, lv, 0, wi, c0 as int);
                }
                if c1 != 0 {
                    assert(reached(nn, lv, c1 as int, c1 as int));
                    assert(reached(nn, lv, wi, c1 as int));
                    lemma_reached_trans(nn, lv, 0, wi, c1 as int);
                }
                if c0 != 0 && c1 != 0 {
                    assert(st@ =~= rest.push(c0).push(c1));
                    assert(st@.drop_last() =~= rest.push(c0));
                    assert(rest.push(c0).drop_last() =~= rest);
                } else if c0 != 0 {
                    assert(st@ =~= rest.push(c0));
                    assert(st@.drop_last() =~= rest);
                } else if c1 != 0 {
                    assert(st@ =~= rest.push(c1));
                    assert(st@.drop_last() =~= rest);
                } else {
                    assert(st@ =~= rest);
                }
                assert(subtree_work(nn, wi) == 1 + (if c0 != 0 { subtree_work(nn, c0 as int) } else { 0 }) + (if c1 != 0 {
                    subtree_work(nn, c1 as int)
                } else {
                    0
                }));
                assert forall|k: int| 0 <= k < st@.len() implies #[trigger] st@[k] < n && reached(nn, lv, 0, st@[k] as int) by {
                    if k < rest.len() {
                        assert(st@[k] == st0[k]);
                    }
                }
                assert forall|x: int| 0 <= x < n && #[trigger] reached(nn, lv, 0, x) implies reach@[x] || exists|k: int|
                    0 <= k < st@.len() && reached(nn, lv, st@[k] as int, x) by {
                    if !reach@[x] {
                        assert(x != wi);
                        let k = choose|k: int| 0 <= k < st0.len() && reached(nn, lv, st0[k] as int, x);
                        if k < rest.len() {
                            assert(st@[k] == st0[k]);
                        } else {
                            assert(st0[k] == w);
                            if c0 != 0 && reached(nn, lv, c0 as int, x) {
                                if c1 != 0 {
                                    assert(st@[st@.len() - 2] == c0);
                                } else {
                                    assert(st@[st@.len() - 1] == c0);
                                }
                            } else {
                                assert(c1 != 0 && reached(nn, lv, c1 as int, x));
                                assert(st@[st@.len() - 1] == c1);
                            }
                        }
                    }
                }
            }
        } else {
            proof {
                let nn = nodes@;
                let wi = w as int;
                reveal_with_fuel(stack_work, 2);
                assert forall|k: int| 0 <= k < st@.len() implies #[trigger] st@[k] < n && reached(nn, lv, 0, st@[k] as int) by {
                    assert(st@[k] == st0[k]);
                }
                assert forall|x: int| 0 <= x < n && #[trigger] reached(nn, lv, 0, x) implies reach@[x] || exists|k: int|
                    0 <= k < st@.len() && reached(nn, lv, st@[k] as int, x) by {
                    if !reach@[x] {
                        assert(x != wi);
                        let k = choose|k: int| 0 <= k < st0.len() && reached(nn, lv, st0[k] as int, x);
                        if k < rest.len() {
                            assert(st@[k] == st0[k]);
                        } else {
                            assert(st0[k] == w);
                            assert(!reached(nn, lv, wi, x));
                        }
                    }
                }
            }
        }
    }
    let mut u: usize = 0;
    while u < n
        invariant
            n == nodes@.len(),
            u <= n,
            reach@.len() == n,
            leaves@.len() == n,
            lv.len() == n,
            forall|w: int| 0 <= w < n ==> (#[trigger] reach@[w] <==> reached(nodes@, lv, 0, w)),
            forall|w: int| 0 <= w < n ==> #[trigger] leaves@[w] == if w < u && !reached(nodes@, lv, 0, w) {
                0
            } else {
                lv[w]
            },
        decreases n - u,
    {
        if !reach[u] {
            leaves.set(u, 0);
        }
        u += 1;
    }
}

} // verus!
