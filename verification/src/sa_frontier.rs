//! The compressed context tree of sorted suffix keys (a Patricia trie), built
//! in one sequential pass with an LCP stack along the right edge, and the
//! indexed min-heap that drives the weakest-link pruning over it.
//!
//! Terminals of the tree are exactly the distinct keys (a group of equal keys
//! is one terminal at depth `depth`); branchings sit at the LCP of adjacent
//! distinct keys. A node stands for the top of its compressed edge.
use vstd::prelude::*;
use vstd::std_specs::bits::{u64_leading_zeros, axiom_u64_leading_zeros};

verus! {

/// No node: the missing child or parent.
pub const NONE: u32 = 0xFFFF_FFFF;

/// The tree as parallel arrays, one entry per node: the counts of the next
/// bit, the children (NONE for a terminal), the parent (NONE for the root),
/// the depth and the first occurrence of the node's context.
pub struct Tree {
    pub n0: Vec<u32>,
    pub n1: Vec<u32>,
    pub ch0: Vec<u32>,
    pub ch1: Vec<u32>,
    pub par: Vec<u32>,
    pub dep: Vec<u8>,
    pub fo: Vec<u32>,
}

/// `Vec::shrink_to_fit`: std documents that it only gives back spare
/// capacity; the elements stay as they are.
#[verifier::external_body]
fn shrink_vec<T>(v: &mut Vec<T>)
    ensures
        final(v)@ == old(v)@,
{
    v.shrink_to_fit();
}

impl Tree {
    /// Number of nodes.
    pub open spec fn size(&self) -> nat {
        self.n0@.len()
    }

    /// All arrays have one entry per node.
    pub open spec fn same_len(&self) -> bool {
        &&& self.n1@.len() == self.size()
        &&& self.ch0@.len() == self.size()
        &&& self.ch1@.len() == self.size()
        &&& self.par@.len() == self.size()
        &&& self.dep@.len() == self.size()
        &&& self.fo@.len() == self.size()
    }

    /// An empty tree with room for `cap` nodes: without it the arrays double
    /// while building, and at the peak that costs gigabytes.
    pub fn with_capacity(cap: usize) -> (t: Tree)
        ensures
            t.size() == 0,
            t.same_len(),
    {
        Tree {
            n0: Vec::with_capacity(cap),
            n1: Vec::with_capacity(cap),
            ch0: Vec::with_capacity(cap),
            ch1: Vec::with_capacity(cap),
            par: Vec::with_capacity(cap),
            dep: Vec::with_capacity(cap),
            fo: Vec::with_capacity(cap),
        }
    }

    /// Number of nodes.
    pub fn len(&self) -> (r: usize)
        ensures
            r == self.size(),
    {
        self.n0.len()
    }

    /// Gives back the unused capacity before the pruning arrays are allocated
    /// beside the tree.
    pub fn shrink(&mut self)
        ensures
            final(self).n0@ == old(self).n0@,
            final(self).n1@ == old(self).n1@,
            final(self).ch0@ == old(self).ch0@,
            final(self).ch1@ == old(self).ch1@,
            final(self).par@ == old(self).par@,
            final(self).dep@ == old(self).dep@,
            final(self).fo@ == old(self).fo@,
    {
        shrink_vec(&mut self.n0);
        shrink_vec(&mut self.n1);
        shrink_vec(&mut self.ch0);
        shrink_vec(&mut self.ch1);
        shrink_vec(&mut self.par);
        shrink_vec(&mut self.dep);
        shrink_vec(&mut self.fo);
    }

    /// Appends a node without a parent and returns its index.
    pub fn push(&mut self, dep: u8, n0: u32, n1: u32, fo: u32, ch0: u32, ch1: u32) -> (u: u32)
        requires
            old(self).same_len(),
            old(self).size() < NONE,
        ensures
            u == old(self).size(),
            final(self).same_len(),
            final(self).n0@ == old(self).n0@.push(n0),
            final(self).n1@ == old(self).n1@.push(n1),
            final(self).ch0@ == old(self).ch0@.push(ch0),
            final(self).ch1@ == old(self).ch1@.push(ch1),
            final(self).par@ == old(self).par@.push(NONE),
            final(self).dep@ == old(self).dep@.push(dep),
            final(self).fo@ == old(self).fo@.push(fo),
    {
        let u = self.n0.len() as u32;
        self.n0.push(n0);
        self.n1.push(n1);
        self.ch0.push(ch0);
        self.ch1.push(ch1);
        self.par.push(NONE);
        self.dep.push(dep);
        self.fo.push(fo);
        u
    }

    /// Length of the compressed edge above node u: dep(u) - dep(par(u)) - 1;
    /// for the root, dep(root).
    pub fn k(&self, u: usize) -> (r: u64)
        requires
            self.same_len(),
            u < self.size(),
            self.par@[u as int] != NONE ==> self.par@[u as int] < self.size() && self.dep@[self.par@[u as int] as int]
                < self.dep@[u as int],
        ensures
            r == if self.par@[u as int] == NONE {
                self.dep@[u as int] as int
            } else {
                self.dep@[u as int] - self.dep@[self.par@[u as int] as int] - 1
            },
    {
        let p = self.par[u];
        if p == NONE {
            self.dep[u] as u64
        } else {
            (self.dep[u] - self.dep[p as usize] - 1) as u64
        }
    }
}

/// The bit of depth d of a key in split order (0: the most recent context
/// bit): (key >> (depth - 1 - d)) & 1.
pub open spec fn key_bit(key: u64, depth: int, d: int) -> int {
    ((key >> ((depth - 1 - d) as u64)) & 1u64) as int
}

/// Bit j of a xor is set exactly where the operands differ.
proof fn lemma_xor_bit(a: u64, b: u64, j: u64)
    by (bit_vector)
    requires
        j < 64,
    ensures
        (((a ^ b) >> j) & 1u64 == 0u64) <==> ((a >> j) & 1u64 == (b >> j) & 1u64),
{
}

/// Keys below 2^depth have no bit at or above depth, and neither has their xor.
proof fn lemma_high_bits(a: u64, b: u64, depth: u64, j: u64)
    by (bit_vector)
    requires
        depth <= 63,
        a < (1u64 << depth),
        b < (1u64 << depth),
        depth <= j < 64,
    ensures
        ((a ^ b) >> j) & 1u64 == 0u64,
{
}

/// Below the highest differing bit the order of two keys is decided by it.
proof fn lemma_order_bit(a: u64, b: u64, p: u64, q: u64)
    by (bit_vector)
    requires
        p < 63,
        q == p + 1,
        (a ^ b) >> q == 0u64,
        ((a ^ b) >> p) & 1u64 != 0u64,
    ensures
        a < b <==> (a >> p) & 1u64 == 0u64,
{
}

/// Equal xor zero means equal keys.
proof fn lemma_xor_zero(a: u64, b: u64)
    by (bit_vector)
    ensures
        (a ^ b == 0u64) <==> a == b,
{
}

/// Successive pops come out in key order: a node popped after u1, from
/// what was left, is not before u1.
pub proof fn lemma_pop_order(keys: Seq<Key>, s: Set<u32>, u1: u32, u2: u32)
    requires
        s.contains(u1),
        forall|v: u32| #[trigger] s.contains(v) ==> !key_lt(keys[v as int], keys[u1 as int]),
        s.remove(u1).contains(u2),
    ensures
        !key_lt(keys[u2 as int], keys[u1 as int]),
{
    assert(s.contains(u2));
}

/// r is the length of the common prefix of the `depth`-bit keys a and b:
/// their bits agree above r and differ at r, where the smaller key has 0;
/// r is `depth` exactly for equal keys.
pub open spec fn is_lcp(a: u64, b: u64, depth: int, r: int) -> bool {
    &&& 0 <= r <= depth
    &&& forall|e: int| 0 <= e < r ==> #[trigger] key_bit(a, depth, e) == key_bit(b, depth, e)
    &&& r < depth ==> key_bit(a, depth, r) != key_bit(b, depth, r)
    &&& r < depth ==> (a < b <==> key_bit(a, depth, r) == 0)
    &&& (r == depth) <==> a == b
}

/// The common prefix is determined by the bits: agreeing above m and
/// differing at m (or m the full depth) fixes it at m.
proof fn lemma_lcp_unique(a: u64, b: u64, depth: int, r: int, m: int)
    requires
        is_lcp(a, b, depth, r),
        0 <= m <= depth,
        forall|e: int| 0 <= e < m ==> #[trigger] key_bit(a, depth, e) == key_bit(b, depth, e),
        m < depth ==> key_bit(a, depth, m) != key_bit(b, depth, m),
    ensures
        r == m,
{
    if r < m {
        assert(key_bit(a, depth, r) == key_bit(b, depth, r));
    } else if m < r {
        assert(key_bit(a, depth, m) == key_bit(b, depth, m));
    }
}

/// The common prefix is symmetric.
pub proof fn lemma_lcp_symmetric(a: u64, b: u64, depth: int, r1: int, r2: int)
    requires
        is_lcp(a, b, depth, r1),
        is_lcp(b, a, depth, r2),
    ensures
        r1 == r2,
{
    lemma_lcp_unique(b, a, depth, r2, r1);
}

/// For keys in order a <= b <= c, the common prefix of a and c is the shorter
/// of the common prefixes of neighbours.
pub proof fn lemma_lcp_min(a: u64, b: u64, c: u64, depth: int, rab: int, rbc: int, rac: int)
    requires
        a <= b <= c,
        is_lcp(a, b, depth, rab),
        is_lcp(b, c, depth, rbc),
        is_lcp(a, c, depth, rac),
    ensures
        rac == if rab <= rbc { rab } else { rbc },
{
    let m = if rab <= rbc { rab } else { rbc };
    assert forall|e: int| 0 <= e < m implies #[trigger] key_bit(a, depth, e) == key_bit(c, depth, e) by {
        assert(key_bit(a, depth, e) == key_bit(b, depth, e));
        assert(key_bit(b, depth, e) == key_bit(c, depth, e));
    }
    if m < depth {
        if rab < rbc {
            assert(key_bit(b, depth, rab) == key_bit(c, depth, rab));
        } else if rbc < rab {
            assert(key_bit(a, depth, rbc) == key_bit(b, depth, rbc));
        } else {
            assert(a < b);
            assert(b < c);
        }
    }
    lemma_lcp_unique(a, c, depth, rac, m);
}

/// Depth at which two keys part in split order: the length of their common
/// prefix of context bits, `depth` for equal keys.
pub fn lcp_depth(a: u64, b: u64, depth: usize) -> (r: usize)
    requires
        1 <= depth <= 63,
        a < (1u64 << depth),
        b < (1u64 << depth),
    ensures
        r <= depth,
        forall|e: int| 0 <= e < r ==> #[trigger] key_bit(a, depth as int, e) == key_bit(b, depth as int, e),
        r < depth ==> key_bit(a, depth as int, r as int) != key_bit(b, depth as int, r as int),
        r < depth ==> (a < b <==> key_bit(a, depth as int, r as int) == 0),
        (r == depth) <==> a == b,
        is_lcp(a, b, depth as int, r as int),
{
    let diff = a ^ b;
    proof {
        lemma_xor_zero(a, b);
    }
    if diff == 0 {
        return depth;
    }
    let lz = diff.leading_zeros();
    proof {
        axiom_u64_leading_zeros(diff);
        let p = 63 - lz;
        assert((diff >> (p as u64)) & 1u64 != 0u64);
        if p >= depth {
            lemma_high_bits(a, b, depth as u64, p as u64);
        }
        assert forall|e: int| 0 <= e < depth - 1 - p implies #[trigger] key_bit(a, depth as int, e) == key_bit(
            b,
            depth as int,
            e,
        ) by {
            let j = (depth - 1 - e) as u64;
            assert(64 - u64_leading_zeros(diff) <= j < 64);
            lemma_xor_bit(a, b, j);
        }
        lemma_xor_bit(a, b, p as u64);
        assert(diff >> (64 - lz) as u64 == 0u64);
        lemma_order_bit(a, b, p as u64, (p + 1) as u64);
    }
    depth - 1 - (63 - lz) as usize
}

/// The smaller of two first occurrences.
pub open spec fn min_u32(a: u32, b: u32) -> u32 {
    if a <= b {
        a
    } else {
        b
    }
}

/// Node u agrees with its children and its parent: a terminal has no
/// children and sits at `depth`; a branching has two children, both deeper,
/// pointing back to it, and its counts and first occurrence are the sums and
/// the minimum of theirs; a node with a parent is one of its children.
pub open spec fn node_ok(tr: Tree, u: int, depth: int) -> bool {
    let n = tr.size();
    let a = tr.ch0@[u];
    let b = tr.ch1@[u];
    &&& (a == NONE) == (b == NONE)
    &&& a == NONE ==> tr.dep@[u] == depth
    &&& a != NONE ==> {
        &&& a < n
        &&& b < n
        &&& a != b
        &&& tr.par@[a as int] == u
        &&& tr.par@[b as int] == u
        &&& tr.dep@[u] < tr.dep@[a as int]
        &&& tr.dep@[u] < tr.dep@[b as int]
        &&& tr.n0@[u] == tr.n0@[a as int] + tr.n0@[b as int]
        &&& tr.n1@[u] == tr.n1@[a as int] + tr.n1@[b as int]
        &&& tr.fo@[u] == min_u32(tr.fo@[a as int], tr.fo@[b as int])
    }
    &&& tr.par@[u] != NONE ==> tr.par@[u] < n && (tr.ch0@[tr.par@[u] as int] == u || tr.ch1@[tr.par@[u] as int] == u)
}

/// A consistent tree with the given root: every node agrees with its children
/// and parent, and the root is the only node without a parent.
pub open spec fn tree_ok(tr: Tree, root: int, depth: int) -> bool {
    &&& tr.same_len()
    &&& tr.size() < NONE
    &&& 0 <= root < tr.size()
    &&& tr.par@[root] == NONE
    &&& forall|u: int| 0 <= u < tr.size() ==> #[trigger] node_ok(tr, u, depth)
    &&& forall|u: int| 0 <= u < tr.size() && #[trigger] tr.par@[u] == NONE ==> u == root
}

/// The right edge of the tree built so far: from the root down to the last
/// terminal, depths strictly growing, each node the second child of the one
/// above; the last key turns right at every branching on it.
pub open spec fn spine_ok(tr: Tree, stack: Seq<u32>, depth: int, last_key: u64) -> bool {
    let l = stack.len();
    &&& l >= 1
    &&& forall|i: int| 0 <= i < l ==> #[trigger] stack[i] < tr.size()
    &&& forall|i: int, j: int| 0 <= i < j < l ==> tr.dep@[#[trigger] stack[i] as int] < tr.dep@[#[trigger] stack[j] as int]
    &&& forall|i: int|
        0 <= i < l - 1 ==> tr.ch1@[#[trigger] stack[i] as int] == stack[i + 1] && tr.par@[stack[i + 1] as int]
            == stack[i]
    &&& forall|i: int| 0 <= i < l - 1 ==> key_bit(last_key, depth, tr.dep@[#[trigger] stack[i] as int] as int) == 1
    &&& tr.ch0@[stack[l - 1] as int] == NONE
    &&& tr.par@[stack[0] as int] == NONE
}

/// A key bit is 0 or 1.
pub proof fn lemma_key_bit(key: u64, depth: int, d: int)
    ensures
        0 <= key_bit(key, depth, d) < 2,
{
    let x = key >> ((depth - 1 - d) as u64);
    assert(x & 1u64 < 2u64) by (bit_vector);
}

/// Appending nodes keeps the old nodes consistent, and the right edge too.
proof fn lemma_push_frame(a: Tree, b: Tree, depth: int, stack: Seq<u32>, last_key: u64)
    requires
        a.same_len(),
        b.same_len(),
        a.size() <= b.size(),
        forall|u: int| 0 <= u < a.size() ==> #[trigger] b.n0@[u] == a.n0@[u],
        forall|u: int| 0 <= u < a.size() ==> #[trigger] b.n1@[u] == a.n1@[u],
        forall|u: int| 0 <= u < a.size() ==> #[trigger] b.ch0@[u] == a.ch0@[u],
        forall|u: int| 0 <= u < a.size() ==> #[trigger] b.ch1@[u] == a.ch1@[u],
        forall|u: int| 0 <= u < a.size() ==> #[trigger] b.par@[u] == a.par@[u],
        forall|u: int| 0 <= u < a.size() ==> #[trigger] b.dep@[u] == a.dep@[u],
        forall|u: int| 0 <= u < a.size() ==> #[trigger] b.fo@[u] == a.fo@[u],
    ensures
        forall|u: int| 0 <= u < a.size() && node_ok(a, u, depth) ==> #[trigger] node_ok(b, u, depth),
        stack.len() >= 1 && spine_ok(a, stack, depth, last_key) ==> spine_ok(b, stack, depth, last_key),
{
    assert forall|u: int| 0 <= u < a.size() && node_ok(a, u, depth) implies #[trigger] node_ok(b, u, depth) by {
        let c0 = a.ch0@[u];
        let c1 = a.ch1@[u];
        if c0 != NONE {
            assert(b.par@[c0 as int] == a.par@[c0 as int]);
            assert(b.par@[c1 as int] == a.par@[c1 as int]);
            assert(b.dep@[c0 as int] == a.dep@[c0 as int]);
            assert(b.dep@[c1 as int] == a.dep@[c1 as int]);
            assert(b.n0@[c0 as int] == a.n0@[c0 as int]);
            assert(b.n0@[c1 as int] == a.n0@[c1 as int]);
            assert(b.n1@[c0 as int] == a.n1@[c0 as int]);
            assert(b.n1@[c1 as int] == a.n1@[c1 as int]);
            assert(b.fo@[c0 as int] == a.fo@[c0 as int]);
            assert(b.fo@[c1 as int] == a.fo@[c1 as int]);
        }
        let p = a.par@[u];
        if p != NONE {
            assert(b.ch0@[p as int] == a.ch0@[p as int]);
            assert(b.ch1@[p as int] == a.ch1@[p as int]);
        }
    }
    if stack.len() >= 1 && spine_ok(a, stack, depth, last_key) {
        let l = stack.len();
        assert forall|i: int, j: int| 0 <= i < j < l implies b.dep@[#[trigger] stack[i] as int] < b.dep@[#[trigger] stack[j] as int] by {
            assert(a.dep@[stack[i] as int] < a.dep@[stack[j] as int]);
        }
        assert forall|i: int| 0 <= i < l - 1 implies b.ch1@[#[trigger] stack[i] as int] == stack[i + 1] && b.par@[stack[i + 1] as int]
            == stack[i] by {
            assert(stack[i + 1] < a.size());
        }
        assert forall|i: int| 0 <= i < l - 1 implies key_bit(last_key, depth, b.dep@[#[trigger] stack[i] as int] as int) == 1 by {
            assert(stack[i] < a.size());
        }
        assert(stack[l - 1] < a.size());
        assert(stack[0] < a.size());
    }
}

/// What closing a group starts from: the tree with the new terminal, the
/// right edge and the branching depth.
spec fn close_before(
    tr0: Tree,
    tr1: Tree,
    tr2: Tree,
    so: Seq<u32>,
    m: int,
    t: int,
    left: int,
    b: int,
    l: int,
    prev: u64,
    key: u64,
    n0: u32,
    n1: u32,
    fo: u32,
    closed0: nat,
    g0: nat,
    depth: int,
) -> bool {
    &&& 1 <= depth <= 63
    &&& 0 <= l < depth
    &&& n0 + n1 >= 1
    &&& closed0 + n0 + n1 <= 0xFFFF_FFFF
    &&& g0 + 1 < 0x7FFF_FFFF
    &&& tr0.same_len()
    &&& t == tr0.size() - 1
    &&& t <= 2 * g0
    &&& tr0.ch0@[t] == NONE
    &&& tr0.ch1@[t] == NONE
    &&& tr0.par@[t] == NONE
    &&& tr0.dep@[t] == depth
    &&& tr0.n0@[t] == n0
    &&& tr0.n1@[t] == n1
    &&& tr0.fo@[t] == fo
    &&& forall|u: int| 0 <= u < tr0.size() ==> #[trigger] node_ok(tr0, u, depth)
    &&& forall|u: int| 0 <= u < t ==> #[trigger] tr0.n0@[u] + tr0.n1@[u] <= closed0
    &&& spine_ok(tr0, so, depth, prev)
    &&& forall|i: int| 0 <= i < so.len() ==> #[trigger] so[i] < t
    &&& forall|u: int| 0 <= u < t && #[trigger] tr0.par@[u] == NONE ==> u == so[0]
    &&& tr0.n0@[so[0] as int] + tr0.n1@[so[0] as int] == closed0
    &&& forall|e: int| 0 <= e < l ==> #[trigger] key_bit(prev, depth, e) == key_bit(key, depth, e)
    &&& key_bit(prev, depth, l) == 0
    &&& key_bit(key, depth, l) == 1
    &&& 0 <= m < so.len()
    &&& left == so[m]
    &&& forall|i: int| m <= i < so.len() ==> tr0.dep@[#[trigger] so[i] as int] > l
    &&& m > 0 ==> tr0.dep@[so[m - 1] as int] < l
}

/// What the counting pass leaves: the surviving right edge grew by the new
/// terminal.
spec fn close_counts(
    tr0: Tree,
    tr1: Tree,
    tr2: Tree,
    so: Seq<u32>,
    m: int,
    t: int,
    left: int,
    b: int,
    l: int,
    prev: u64,
    key: u64,
    n0: u32,
    n1: u32,
    fo: u32,
    closed0: nat,
    g0: nat,
    depth: int,
) -> bool {
    &&& tr1.same_len()
    &&& tr1.size() == tr0.size()
    &&& tr1.ch0@ == tr0.ch0@
    &&& tr1.ch1@ == tr0.ch1@
    &&& tr1.par@ == tr0.par@
    &&& tr1.dep@ == tr0.dep@
    &&& forall|j: int|
            0 <= j < m ==> #[trigger] tr1.n0@[so[j] as int] == tr0.n0@[so[j] as int] + n0 && tr1.n1@[so[j] as int]
                == tr0.n1@[so[j] as int] + n1 && tr1.fo@[so[j] as int] == min_u32(tr0.fo@[so[j] as int], fo)
    &&& forall|u: int|
            0 <= u < tr0.size() && (forall|j: int| 0 <= j < m ==> so[j] != u) ==> #[trigger] tr1.n0@[u] == tr0.n0@[u]
                && tr1.n1@[u] == tr0.n1@[u] && tr1.fo@[u] == tr0.fo@[u]
}

/// What linking the new branching leaves.
spec fn close_links(
    tr0: Tree,
    tr1: Tree,
    tr2: Tree,
    so: Seq<u32>,
    m: int,
    t: int,
    left: int,
    b: int,
    l: int,
    prev: u64,
    key: u64,
    n0: u32,
    n1: u32,
    fo: u32,
    closed0: nat,
    g0: nat,
    depth: int,
) -> bool {
    &&& b == tr0.size()
    &&& tr2.n0@ == tr1.n0@.push((tr1.n0@[left] + n0) as u32)
    &&& tr2.n1@ == tr1.n1@.push((tr1.n1@[left] + n1) as u32)
    &&& tr2.ch0@ == tr1.ch0@.push(left as u32)
    &&& tr2.ch1@ == (if m > 0 {
            tr1.ch1@.push(t as u32).update(so[m - 1] as int, b as u32)
        } else {
            tr1.ch1@.push(t as u32)
        })
    &&& tr2.par@ == (if m > 0 {
            tr1.par@.push(NONE).update(left, b as u32).update(t, b as u32).update(b, so[m - 1])
        } else {
            tr1.par@.push(NONE).update(left, b as u32).update(t, b as u32)
        })
    &&& tr2.dep@ == tr1.dep@.push(l as u8)
    &&& tr2.fo@ == tr1.fo@.push(min_u32(tr1.fo@[left], fo))
}

/// What holds after the steps of closing a group, before the tree is checked.
spec fn close_facts(
    tr0: Tree,
    tr1: Tree,
    tr2: Tree,
    so: Seq<u32>,
    m: int,
    t: int,
    left: int,
    b: int,
    l: int,
    prev: u64,
    key: u64,
    n0: u32,
    n1: u32,
    fo: u32,
    closed0: nat,
    g0: nat,
    depth: int,
) -> bool {
    &&& close_before(tr0, tr1, tr2, so, m, t, left, b, l, prev, key, n0, n1, fo, closed0, g0, depth)
    &&& close_counts(tr0, tr1, tr2, so, m, t, left, b, l, prev, key, n0, n1, fo, closed0, g0, depth)
    &&& close_links(tr0, tr1, tr2, so, m, t, left, b, l, prev, key, n0, n1, fo, closed0, g0, depth)
}

/// The new branching and terminal agree with their children and parent.
#[verifier::rlimit(100)]
proof fn lemma_close_node_new(
    tr0: Tree,
    tr1: Tree,
    tr2: Tree,
    so: Seq<u32>,
    m: int,
    t: int,
    left: int,
    b: int,
    l: int,
    prev: u64,
    key: u64,
    n0: u32,
    n1: u32,
    fo: u32,
    closed0: nat,
    g0: nat,
    depth: int,
    u: int,
)
    requires
        close_facts(tr0, tr1, tr2, so, m, t, left, b, l, prev, key, n0, n1, fo, closed0, g0, depth),
        0 <= u <= b,
        u == b || u == t,
    ensures
        node_ok(tr2, u, depth),
{
    let ns = so.subrange(0, m).push(b as u32).push(t as u32);
    let g = n0 + n1;
    let p = if m > 0 { so[m - 1] as int } else { -1 };
    // facts about the old right edge
    assert(left < t);
    assert(tr0.par@[left] == if m > 0 { so[m - 1] } else { NONE }) by {
        if m > 0 {
            assert(tr0.par@[so[m] as int] == so[m - 1]);
        }
    }
    assert(m > 0 ==> tr0.ch1@[p] == left);
    assert(forall|j: int| 0 <= j < m ==> so[j] != left) by {
        assert forall|j: int| 0 <= j < m implies so[j] != left by {
            assert(tr0.dep@[so[j] as int] < tr0.dep@[so[m] as int]);
        }
    }
    assert(forall|j: int| 0 <= j < m ==> #[trigger] tr0.dep@[so[j] as int] < l) by {
        assert forall|j: int| 0 <= j < m implies #[trigger] tr0.dep@[so[j] as int] < l by {
            if j < m - 1 {
                assert(tr0.dep@[so[j] as int] < tr0.dep@[so[m - 1] as int]);
            }
        }
    }
    // a node of the edge kept: its parent is on the edge, or it is the root
    assert forall|j: int| 0 <= j < m implies (#[trigger] tr0.par@[so[j] as int] == NONE && j == 0) || (j > 0
        && tr0.par@[so[j] as int] == so[j - 1]) by {
        if j > 0 {
            assert(tr0.par@[so[(j - 1) + 1] as int] == so[j - 1]);
        }
    }
    // the arrays after closing, against those before
    assert forall|q: int| 0 <= q < t implies #[trigger] tr2.ch0@[q] == tr0.ch0@[q] by {}
    assert forall|q: int| 0 <= q < t && q != p implies #[trigger] tr2.ch1@[q] == tr0.ch1@[q] by {}
    assert forall|q: int| 0 <= q < t && q != left implies #[trigger] tr2.par@[q] == tr0.par@[q] by {}
    assert forall|q: int| 0 <= q <= t implies #[trigger] tr2.dep@[q] == tr0.dep@[q] by {}
    {
    if u == b {
        assert(tr2.par@[left] == b);
        assert(tr2.par@[t] == b);
        assert(tr0.dep@[so[m] as int] > l);
        if m > 0 {
            assert(tr2.ch1@[p] == b);
            assert(tr2.par@[b] == p);
        } else {
            assert(tr2.par@[b] == NONE);
        }
        assert(tr2.ch0@[b] == left);
        assert(tr2.ch1@[b] == t);
        assert(tr2.dep@[b] == l);
        assert(tr2.dep@[left] == tr0.dep@[left]);
        assert(tr2.dep@[t] == depth);
        assert(tr2.n0@[b] == tr2.n0@[left] + tr2.n0@[t]);
        assert(tr2.n1@[b] == tr2.n1@[left] + tr2.n1@[t]);
        assert(tr2.fo@[b] == min_u32(tr2.fo@[left], tr2.fo@[t]));

    } else {
        assert(tr2.ch1@[b] == t);
    }
    }
}

/// The root of the finished left subtree agrees with its children and new parent.
#[verifier::rlimit(100)]
proof fn lemma_close_node_left(
    tr0: Tree,
    tr1: Tree,
    tr2: Tree,
    so: Seq<u32>,
    m: int,
    t: int,
    left: int,
    b: int,
    l: int,
    prev: u64,
    key: u64,
    n0: u32,
    n1: u32,
    fo: u32,
    closed0: nat,
    g0: nat,
    depth: int,
    u: int,
)
    requires
        close_facts(tr0, tr1, tr2, so, m, t, left, b, l, prev, key, n0, n1, fo, closed0, g0, depth),
        0 <= u <= b,
        u == left,
    ensures
        node_ok(tr2, u, depth),
{
    let ns = so.subrange(0, m).push(b as u32).push(t as u32);
    let g = n0 + n1;
    let p = if m > 0 { so[m - 1] as int } else { -1 };
    // facts about the old right edge
    assert(left < t);
    assert(tr0.par@[left] == if m > 0 { so[m - 1] } else { NONE }) by {
        if m > 0 {
            assert(tr0.par@[so[m] as int] == so[m - 1]);
        }
    }
    assert(m > 0 ==> tr0.ch1@[p] == left);
    assert(forall|j: int| 0 <= j < m ==> so[j] != left) by {
        assert forall|j: int| 0 <= j < m implies so[j] != left by {
            assert(tr0.dep@[so[j] as int] < tr0.dep@[so[m] as int]);
        }
    }
    assert(forall|j: int| 0 <= j < m ==> #[trigger] tr0.dep@[so[j] as int] < l) by {
        assert forall|j: int| 0 <= j < m implies #[trigger] tr0.dep@[so[j] as int] < l by {
            if j < m - 1 {
                assert(tr0.dep@[so[j] as int] < tr0.dep@[so[m - 1] as int]);
            }
        }
    }
    // a node of the edge kept: its parent is on the edge, or it is the root
    assert forall|j: int| 0 <= j < m implies (#[trigger] tr0.par@[so[j] as int] == NONE && j == 0) || (j > 0
        && tr0.par@[so[j] as int] == so[j - 1]) by {
        if j > 0 {
            assert(tr0.par@[so[(j - 1) + 1] as int] == so[j - 1]);
        }
    }
    // the arrays after closing, against those before
    assert forall|q: int| 0 <= q < t implies #[trigger] tr2.ch0@[q] == tr0.ch0@[q] by {}
    assert forall|q: int| 0 <= q < t && q != p implies #[trigger] tr2.ch1@[q] == tr0.ch1@[q] by {}
    assert forall|q: int| 0 <= q < t && q != left implies #[trigger] tr2.par@[q] == tr0.par@[q] by {}
    assert forall|q: int| 0 <= q <= t implies #[trigger] tr2.dep@[q] == tr0.dep@[q] by {}
    {
        assert(node_ok(tr0, u, depth));
        let c0 = tr0.ch0@[u];
        let c1 = tr0.ch1@[u];
        if c0 != NONE {
            assert(c0 != left && c1 != left);
            assert(forall|j: int| 0 <= j < m ==> so[j] != c0) by {
                assert forall|j: int| 0 <= j < m implies so[j] != c0 by {
                    if so[j] == c0 {
                        assert(tr0.par@[c0 as int] == left);
                    }
                }
            }
            assert(forall|j: int| 0 <= j < m ==> so[j] != c1) by {
                assert forall|j: int| 0 <= j < m implies so[j] != c1 by {
                    if so[j] == c1 {
                        assert(tr0.par@[c1 as int] == left);
                    }
                }
            }
            assert(c0 != t && c1 != t);
            assert(tr1.n0@[c0 as int] == tr0.n0@[c0 as int]);
            assert(tr1.n0@[c1 as int] == tr0.n0@[c1 as int]);
            assert(tr1.n0@[u] == tr0.n0@[u]);
        }
        assert(tr2.ch0@[b] == left);
    }
}

/// A node kept on the right edge agrees with its children and parent.
#[verifier::rlimit(100)]
proof fn lemma_close_node_spine(
    tr0: Tree,
    tr1: Tree,
    tr2: Tree,
    so: Seq<u32>,
    m: int,
    t: int,
    left: int,
    b: int,
    l: int,
    prev: u64,
    key: u64,
    n0: u32,
    n1: u32,
    fo: u32,
    closed0: nat,
    g0: nat,
    depth: int,
    u: int,
)
    requires
        close_facts(tr0, tr1, tr2, so, m, t, left, b, l, prev, key, n0, n1, fo, closed0, g0, depth),
        0 <= u <= b,
        exists|j: int| 0 <= j < m && so[j] == u,
    ensures
        node_ok(tr2, u, depth),
{
    let ns = so.subrange(0, m).push(b as u32).push(t as u32);
    let g = n0 + n1;
    let p = if m > 0 { so[m - 1] as int } else { -1 };
    // facts about the old right edge
    assert(left < t);
    assert(tr0.par@[left] == if m > 0 { so[m - 1] } else { NONE }) by {
        if m > 0 {
            assert(tr0.par@[so[m] as int] == so[m - 1]);
        }
    }
    assert(m > 0 ==> tr0.ch1@[p] == left);
    assert(forall|j: int| 0 <= j < m ==> so[j] != left) by {
        assert forall|j: int| 0 <= j < m implies so[j] != left by {
            assert(tr0.dep@[so[j] as int] < tr0.dep@[so[m] as int]);
        }
    }
    assert(forall|j: int| 0 <= j < m ==> #[trigger] tr0.dep@[so[j] as int] < l) by {
        assert forall|j: int| 0 <= j < m implies #[trigger] tr0.dep@[so[j] as int] < l by {
            if j < m - 1 {
                assert(tr0.dep@[so[j] as int] < tr0.dep@[so[m - 1] as int]);
            }
        }
    }
    // a node of the edge kept: its parent is on the edge, or it is the root
    assert forall|j: int| 0 <= j < m implies (#[trigger] tr0.par@[so[j] as int] == NONE && j == 0) || (j > 0
        && tr0.par@[so[j] as int] == so[j - 1]) by {
        if j > 0 {
            assert(tr0.par@[so[(j - 1) + 1] as int] == so[j - 1]);
        }
    }
    // the arrays after closing, against those before
    assert forall|q: int| 0 <= q < t implies #[trigger] tr2.ch0@[q] == tr0.ch0@[q] by {}
    assert forall|q: int| 0 <= q < t && q != p implies #[trigger] tr2.ch1@[q] == tr0.ch1@[q] by {}
    assert forall|q: int| 0 <= q < t && q != left implies #[trigger] tr2.par@[q] == tr0.par@[q] by {}
    assert forall|q: int| 0 <= q <= t implies #[trigger] tr2.dep@[q] == tr0.dep@[q] by {}
    {
        let j = choose|j: int| 0 <= j < m && so[j] == u;
        assert(node_ok(tr0, u, depth));
        assert(tr0.ch1@[u] != NONE) by {
            assert(tr0.ch1@[so[j] as int] == so[j + 1]);
        }
        let c0 = tr0.ch0@[u];
        let c1 = tr0.ch1@[u];
        assert(c1 == so[j + 1]);
        assert(forall|k: int| 0 <= k < m ==> so[k] != c0) by {
            assert forall|k: int| 0 <= k < m implies so[k] != c0 by {
                if so[k] == c0 {
                    assert(tr0.par@[c0 as int] == u);
                    if k == 0 {
                        assert(tr0.par@[so[0] as int] == NONE);
                    } else {
                        assert(tr0.par@[so[k] as int] == so[k - 1]);
                        assert(so[k - 1] == u);
                        assert(tr0.ch1@[so[k - 1] as int] == so[k]);
                        assert(c0 == c1);
                        assert(tr0.dep@[so[k - 1] as int] < tr0.dep@[so[k] as int]);
                    }
                }
            }
        }
        assert(c0 != left) by {
            if c0 == left {
                assert(tr0.par@[left] == u);
                if m == 0 {
                } else {
                    assert(u == so[m - 1]);
                    assert(c1 == so[m]);
                    assert(c1 == left);
                }
            }
        }
        assert(c0 != t);
        assert(tr1.n0@[c0 as int] == tr0.n0@[c0 as int]);
        if j < m - 1 {
            assert(c1 == so[j + 1]);
            assert(tr1.n0@[c1 as int] == tr0.n0@[c1 as int] + n0);
            assert(tr1.n0@[so[j + 1] as int] == tr0.n0@[so[j + 1] as int] + n0);
        } else {
            assert(u == p);
            assert(c1 == left);
            assert(tr2.ch1@[u] == b);
        }
        assert(u != left);
        assert(tr2.par@[u] == tr0.par@[u]);
        if tr0.par@[u] != NONE {
            assert(j > 0);
            assert(tr0.par@[u] == so[j - 1]);
            assert(tr0.ch1@[so[j - 1] as int] == so[j]);
            if m > 0 {
                assert(so[j - 1] != p) by {
                    assert(tr0.dep@[so[j - 1] as int] < tr0.dep@[so[m - 1] as int]);
                }
            }
            assert(so[j - 1] < t);
            assert(tr2.ch1@[so[j - 1] as int] == tr0.ch1@[so[j - 1] as int]);
        }
        let a2 = tr2.ch0@[u];
        let b2 = tr2.ch1@[u];
        assert(a2 == c0);
        assert(a2 != NONE);
        assert(a2 < tr2.size());
        assert(b2 < tr2.size());
        assert(a2 != b2);
        assert(tr2.par@[a2 as int] == u);
        assert(tr2.par@[b2 as int] == u);
        assert(tr2.dep@[u] < tr2.dep@[a2 as int]);
        assert(tr2.dep@[u] < tr2.dep@[b2 as int]);
        assert(tr2.n0@[u] == tr2.n0@[a2 as int] + tr2.n0@[b2 as int]);
        assert(tr2.n1@[u] == tr2.n1@[a2 as int] + tr2.n1@[b2 as int]);
        assert(tr2.fo@[u] == min_u32(tr2.fo@[a2 as int], tr2.fo@[b2 as int]));
    }
}

/// A node off the right edge is untouched and still agrees with its neighbours.
#[verifier::rlimit(100)]
proof fn lemma_close_node_other(
    tr0: Tree,
    tr1: Tree,
    tr2: Tree,
    so: Seq<u32>,
    m: int,
    t: int,
    left: int,
    b: int,
    l: int,
    prev: u64,
    key: u64,
    n0: u32,
    n1: u32,
    fo: u32,
    closed0: nat,
    g0: nat,
    depth: int,
    u: int,
)
    requires
        close_facts(tr0, tr1, tr2, so, m, t, left, b, l, prev, key, n0, n1, fo, closed0, g0, depth),
        0 <= u <= b,
        u < t && u != left && (forall|j: int| 0 <= j < m ==> so[j] != u),
    ensures
        node_ok(tr2, u, depth),
{
    let ns = so.subrange(0, m).push(b as u32).push(t as u32);
    let g = n0 + n1;
    let p = if m > 0 { so[m - 1] as int } else { -1 };
    // facts about the old right edge
    assert(left < t);
    assert(tr0.par@[left] == if m > 0 { so[m - 1] } else { NONE }) by {
        if m > 0 {
            assert(tr0.par@[so[m] as int] == so[m - 1]);
        }
    }
    assert(m > 0 ==> tr0.ch1@[p] == left);
    assert(forall|j: int| 0 <= j < m ==> so[j] != left) by {
        assert forall|j: int| 0 <= j < m implies so[j] != left by {
            assert(tr0.dep@[so[j] as int] < tr0.dep@[so[m] as int]);
        }
    }
    assert(forall|j: int| 0 <= j < m ==> #[trigger] tr0.dep@[so[j] as int] < l) by {
        assert forall|j: int| 0 <= j < m implies #[trigger] tr0.dep@[so[j] as int] < l by {
            if j < m - 1 {
                assert(tr0.dep@[so[j] as int] < tr0.dep@[so[m - 1] as int]);
            }
        }
    }
    // a node of the edge kept: its parent is on the edge, or it is the root
    assert forall|j: int| 0 <= j < m implies (#[trigger] tr0.par@[so[j] as int] == NONE && j == 0) || (j > 0
        && tr0.par@[so[j] as int] == so[j - 1]) by {
        if j > 0 {
            assert(tr0.par@[so[(j - 1) + 1] as int] == so[j - 1]);
        }
    }
    // the arrays after closing, against those before
    assert forall|q: int| 0 <= q < t implies #[trigger] tr2.ch0@[q] == tr0.ch0@[q] by {}
    assert forall|q: int| 0 <= q < t && q != p implies #[trigger] tr2.ch1@[q] == tr0.ch1@[q] by {}
    assert forall|q: int| 0 <= q < t && q != left implies #[trigger] tr2.par@[q] == tr0.par@[q] by {}
    assert forall|q: int| 0 <= q <= t implies #[trigger] tr2.dep@[q] == tr0.dep@[q] by {}
    {
        assert(u < t);
        assert(forall|j: int| 0 <= j < m ==> so[j] != u);
        assert(node_ok(tr0, u, depth));
        let c0 = tr0.ch0@[u];
        let c1 = tr0.ch1@[u];
        assert(tr1.n0@[u] == tr0.n0@[u]);
        if c0 != NONE {
            assert(forall|k: int| 0 <= k < m ==> so[k] != c0 && so[k] != c1) by {
                assert forall|k: int| 0 <= k < m implies so[k] != c0 && so[k] != c1 by {
                    if so[k] == c0 || so[k] == c1 {
                        assert(tr0.par@[so[k] as int] == u);
                        if k > 0 {
                            assert(tr0.par@[so[k] as int] == so[k - 1]);
                        }
                    }
                }
            }
            assert(c0 != left && c1 != left) by {
                if c0 == left || c1 == left {
                    assert(tr0.par@[left] == u);
                }
            }
            assert(c0 != t && c1 != t);
            assert(tr1.n0@[c0 as int] == tr0.n0@[c0 as int]);
            assert(tr1.n0@[c1 as int] == tr0.n0@[c1 as int]);
        }
        let q = tr0.par@[u];
        if q != NONE {
            assert(q != p || tr0.ch1@[q as int] != u || u == left);
        }
    }
}

/// One node after closing a group agrees with its children and parent.
#[verifier::rlimit(100)]
proof fn lemma_close_node(
    tr0: Tree,
    tr1: Tree,
    tr2: Tree,
    so: Seq<u32>,
    m: int,
    t: int,
    left: int,
    b: int,
    l: int,
    prev: u64,
    key: u64,
    n0: u32,
    n1: u32,
    fo: u32,
    closed0: nat,
    g0: nat,
    depth: int,
    u: int,
)
    requires
        close_facts(tr0, tr1, tr2, so, m, t, left, b, l, prev, key, n0, n1, fo, closed0, g0, depth),
        0 <= u <= b,
    ensures
        node_ok(tr2, u, depth),
{
    if u == b || u == t {
        lemma_close_node_new(tr0, tr1, tr2, so, m, t, left, b, l, prev, key, n0, n1, fo, closed0, g0, depth, u);
    } else if u == left {
        lemma_close_node_left(tr0, tr1, tr2, so, m, t, left, b, l, prev, key, n0, n1, fo, closed0, g0, depth, u);
    } else if exists|j: int| 0 <= j < m && so[j] == u {
        lemma_close_node_spine(tr0, tr1, tr2, so, m, t, left, b, l, prev, key, n0, n1, fo, closed0, g0, depth, u);
    } else {
        lemma_close_node_other(tr0, tr1, tr2, so, m, t, left, b, l, prev, key, n0, n1, fo, closed0, g0, depth, u);
    }
}

/// Closing a group keeps the tree consistent: the terminal hangs under a new
/// branching at the LCP depth, which takes the place of the finished left
/// subtree, and the ancestors on the right edge count the new records.
#[verifier::rlimit(100)]
proof fn lemma_close_ok(
    tr0: Tree,
    tr1: Tree,
    tr2: Tree,
    so: Seq<u32>,
    m: int,
    t: int,
    left: int,
    b: int,
    l: int,
    prev: u64,
    key: u64,
    n0: u32,
    n1: u32,
    fo: u32,
    closed0: nat,
    g0: nat,
    depth: int,
)
    requires
        close_facts(tr0, tr1, tr2, so, m, t, left, b, l, prev, key, n0, n1, fo, closed0, g0, depth),
    ensures
        tr2.same_len(),
        tr2.size() <= 2 * (g0 + 1),
        forall|u: int| 0 <= u < tr2.size() ==> #[trigger] node_ok(tr2, u, depth),
        forall|u: int| 0 <= u < tr2.size() ==> #[trigger] tr2.n0@[u] + tr2.n1@[u] <= closed0 + n0 + n1,
        spine_ok(tr2, so.subrange(0, m).push(b as u32).push(t as u32), depth, key),
        forall|u: int| 0 <= u < tr2.size() && #[trigger] tr2.par@[u] == NONE ==> u == so.subrange(0, m).push(b as u32).push(
            t as u32,
        )[0],
        tr2.n0@[so.subrange(0, m).push(b as u32).push(t as u32)[0] as int] + tr2.n1@[so.subrange(0, m).push(b as u32).push(
            t as u32,
        )[0] as int] == closed0 + n0 + n1,
{
    let ns = so.subrange(0, m).push(b as u32).push(t as u32);
    let g = n0 + n1;
    let p = if m > 0 { so[m - 1] as int } else { -1 };
    // facts about the old right edge
    assert(left < t);
    assert(tr0.par@[left] == if m > 0 { so[m - 1] } else { NONE }) by {
        if m > 0 {
            assert(tr0.par@[so[m] as int] == so[m - 1]);
        }
    }
    assert(m > 0 ==> tr0.ch1@[p] == left);
    assert(forall|j: int| 0 <= j < m ==> so[j] != left) by {
        assert forall|j: int| 0 <= j < m implies so[j] != left by {
            assert(tr0.dep@[so[j] as int] < tr0.dep@[so[m] as int]);
        }
    }
    assert(forall|j: int| 0 <= j < m ==> #[trigger] tr0.dep@[so[j] as int] < l) by {
        assert forall|j: int| 0 <= j < m implies #[trigger] tr0.dep@[so[j] as int] < l by {
            if j < m - 1 {
                assert(tr0.dep@[so[j] as int] < tr0.dep@[so[m - 1] as int]);
            }
        }
    }
    // a node of the edge kept: its parent is on the edge, or it is the root
    assert forall|j: int| 0 <= j < m implies (#[trigger] tr0.par@[so[j] as int] == NONE && j == 0) || (j > 0
        && tr0.par@[so[j] as int] == so[j - 1]) by {
        if j > 0 {
            assert(tr0.par@[so[(j - 1) + 1] as int] == so[j - 1]);
        }
    }
    assert(tr2.same_len());
    // every node
    assert forall|u: int| 0 <= u < tr2.size() implies #[trigger] node_ok(tr2, u, depth) by {
        lemma_close_node(tr0, tr1, tr2, so, m, t, left, b, l, prev, key, n0, n1, fo, closed0, g0, depth, u);
    }
    assert forall|u: int| 0 <= u < tr2.size() implies #[trigger] tr2.n0@[u] + tr2.n1@[u] <= closed0 + g by {
        if u == b {
            assert(tr1.n0@[left] == tr0.n0@[left]);
        } else if u < t {
            if exists|j: int| 0 <= j < m && so[j] == u {
                let j = choose|j: int| 0 <= j < m && so[j] == u;
                assert(tr1.n0@[so[j] as int] == tr0.n0@[so[j] as int] + n0);
            } else {
                assert(tr1.n0@[u] == tr0.n0@[u]);
            }
        }
    }
    // the new right edge
    assert(spine_ok(tr2, ns, depth, key)) by {
        let ln = ns.len();
        assert(ln == m + 2);
        assert(ns[m] == b && ns[m + 1] == t);
        assert forall|i: int| 0 <= i < ln implies #[trigger] ns[i] < tr2.size() by {
            if i < m {
                assert(ns[i] == so[i]);
            }
        }
        assert forall|i: int, j: int| 0 <= i < j < ln implies tr2.dep@[#[trigger] ns[i] as int] < tr2.dep@[#[trigger] ns[j] as int] by {
            if j < m {
                assert(ns[i] == so[i] && ns[j] == so[j]);
                assert(tr0.dep@[so[i] as int] < tr0.dep@[so[j] as int]);
            } else if i < m {
                assert(ns[i] == so[i]);
                assert(tr0.dep@[so[i] as int] < l);
            }
        }
        assert forall|i: int| 0 <= i < ln - 1 implies tr2.ch1@[#[trigger] ns[i] as int] == ns[i + 1] && tr2.par@[ns[i + 1] as int]
            == ns[i] by {
            if i < m - 1 {
                assert(ns[i] == so[i] && ns[i + 1] == so[i + 1]);
                assert(tr0.ch1@[so[i] as int] == so[i + 1]);
                assert(so[i] != p) by {
                    assert(tr0.dep@[so[i] as int] < tr0.dep@[so[m - 1] as int]);
                }
                assert(so[i + 1] != left && so[i + 1] != t);
            } else if i == m - 1 {
                assert(ns[i] == so[m - 1]);
            }
        }
        assert forall|i: int| 0 <= i < ln - 1 implies key_bit(key, depth, tr2.dep@[#[trigger] ns[i] as int] as int) == 1 by {
            if i < m {
                assert(ns[i] == so[i]);
                assert(tr0.dep@[so[i] as int] < l);
                assert(i < so.len() - 1);
                assert(key_bit(prev, depth, tr0.dep@[so[i] as int] as int) == 1);
            }
        }
        if m > 0 {
            assert(ns[0] == so[0]);
            assert(so[0] != left && so[0] != t && so[0] != b);
        }
    }
    assert forall|u: int| 0 <= u < tr2.size() && #[trigger] tr2.par@[u] == NONE implies u == ns[0] by {
        if m > 0 {
            assert(ns[0] == so[0]);
            if u < t && u != left {
                assert(tr0.par@[u] == NONE);
            }
        } else {
            assert(ns[0] == b);
            if u < t && u != left {
                assert(tr0.par@[u] == NONE);
                assert(u == so[0]);
            }
        }
    }
    if m > 0 {
        assert(ns[0] == so[0]);
        assert(tr1.n0@[so[0] as int] == tr0.n0@[so[0] as int] + n0);
    } else {
        assert(ns[0] == b);
        assert(left == so[0]);
        assert(tr1.n0@[left] == tr0.n0@[left]);
    }
}

/// The groups of equal keys of records in key order: for each distinct key,
/// in order, the number of its records with label 0, with another label, and
/// the least position (positions are taken as `u32`).
pub open spec fn groups(rs: Seq<(u64, u64, u8)>) -> Seq<(u64, int, int, int)>
    decreases rs.len(),
{
    if rs.len() == 0 {
        Seq::empty()
    } else {
        let g = groups(rs.drop_last());
        let k = rs.last().0;
        let pos = (rs.last().1 as u32) as int;
        let c0: int = if rs.last().2 == 0 { 1 } else { 0 };
        if g.len() > 0 && g.last().0 == k {
            let h = g.last();
            g.update(g.len() - 1, (k, h.1 + c0, h.2 + (1 - c0), if pos < h.3 { pos } else { h.3 }))
        } else {
            g.push((k, c0, 1 - c0, pos))
        }
    }
}

/// The terminals (the nodes without children) of the tree are the nodes
/// `terms`, one for each group, in order, with its counts and least
/// position.
pub open spec fn terminals_ok(tr: Tree, terms: Seq<u32>, gs: Seq<(u64, int, int, int)>) -> bool {
    &&& terms.len() == gs.len()
    &&& terms.no_duplicates()
    &&& forall|g: int|
        0 <= g < terms.len() ==> {
            let u = #[trigger] terms[g] as int;
            &&& u < tr.size()
            &&& tr.ch0@[u] == NONE
            &&& tr.n0@[u] == gs[g].1
            &&& tr.n1@[u] == gs[g].2
            &&& tr.fo@[u] == gs[g].3
        }
    &&& forall|u: int| 0 <= u < tr.size() && #[trigger] tr.ch0@[u] == NONE ==> terms.contains(u as u32)
}

/// The first n bits of two keys agree.
pub open spec fn agree(k1: u64, k2: u64, depth: int, n: int) -> bool {
    forall|e: int| 0 <= e < n ==> #[trigger] key_bit(k1, depth, e) == key_bit(k2, depth, e)
}

/// The keys of groups lo .. hi agree with the first of them on their first n
/// bits.
pub open spec fn run_agrees(gs: Seq<(u64, int, int, int)>, lo: int, hi: int, depth: int, n: int) -> bool {
    forall|g: int| lo <= g < hi ==> #[trigger] agree(gs[g].0, gs[lo].0, depth, n)
}

/// The keys of groups lo .. hi all have the given bit at depth d.
pub open spec fn run_bit(gs: Seq<(u64, int, int, int)>, lo: int, hi: int, depth: int, d: int, bit: int) -> bool {
    forall|g: int| lo <= g < hi ==> #[trigger] key_bit(gs[g].0, depth, d) == bit
}

/// Node u covers the run of groups lo[u] .. hi[u]: a terminal one group, a
/// branching the runs of its children side by side, those of the first child
/// with bit 0 at the branching's depth and those of the second with bit 1;
/// the keys of the run agree above the node's depth.
pub open spec fn node_run_ok(tr: Tree, lo: Seq<int>, hi: Seq<int>, gs: Seq<(u64, int, int, int)>, depth: int, u: int) -> bool {
    &&& 0 <= lo[u] < hi[u] <= gs.len()
    &&& tr.ch0@[u] == NONE ==> hi[u] == lo[u] + 1
    &&& tr.ch0@[u] != NONE ==> {
        let a = tr.ch0@[u] as int;
        let c = tr.ch1@[u] as int;
        &&& lo[a] == lo[u]
        &&& hi[a] == lo[c]
        &&& hi[c] == hi[u]
        &&& run_bit(gs, lo[a], hi[a], depth, tr.dep@[u] as int, 0)
        &&& run_bit(gs, lo[c], hi[c], depth, tr.dep@[u] as int, 1)
    }
    &&& run_agrees(gs, lo[u], hi[u], depth, tr.dep@[u] as int)
}

/// Every node of the tree covers its run of groups.
pub open spec fn runs_ok(tr: Tree, lo: Seq<int>, hi: Seq<int>, gs: Seq<(u64, int, int, int)>, depth: int) -> bool {
    &&& lo.len() == tr.size()
    &&& hi.len() == tr.size()
    &&& forall|u: int| 0 <= u < tr.size() ==> #[trigger] node_run_ok(tr, lo, hi, gs, depth, u)
}

/// Agreement is transitive, and agreement on more bits gives agreement on
/// fewer.
pub proof fn lemma_agree_trans(k1: u64, k2: u64, k3: u64, depth: int, n1: int, n2: int, n: int)
    requires
        agree(k1, k2, depth, n1),
        agree(k2, k3, depth, n2),
        n <= n1,
        n <= n2,
    ensures
        agree(k1, k3, depth, n),
{
    assert forall|e: int| 0 <= e < n implies #[trigger] key_bit(k1, depth, e) == key_bit(k3, depth, e) by {
        assert(key_bit(k1, depth, e) == key_bit(k2, depth, e));
        assert(key_bit(k2, depth, e) == key_bit(k3, depth, e));
    }
}

/// Agreement is symmetric.
pub proof fn lemma_agree_sym(k1: u64, k2: u64, depth: int, n: int)
    requires
        agree(k1, k2, depth, n),
    ensures
        agree(k2, k1, depth, n),
{
    assert forall|e: int| 0 <= e < n implies #[trigger] key_bit(k2, depth, e) == key_bit(k1, depth, e) by {
        assert(key_bit(k1, depth, e) == key_bit(k2, depth, e));
    }
}

/// The runs after closing a group: the new terminal covers the new group,
/// the new branching the run of `left` and the new group, and the nodes of
/// the right edge that stay on it grow by the new group.
pub open spec fn runs_after(lo0: Seq<int>, hi0: Seq<int>, so: Seq<u32>, m: int, t: int, left: int, g: int) -> (Seq<int>, Seq<int>) {
    (
        lo0.push(g).push(lo0[left]),
        Seq::new(
            (t + 2) as nat,
            |u: int|
                if u >= t || so.subrange(0, m).contains(u as u32) {
                    g + 1
                } else {
                    hi0[u]
                },
        ),
    )
}

/// Closing a group keeps every node covering its run.
#[verifier::rlimit(100)]
proof fn lemma_close_runs(
    tr0: Tree,
    tr1: Tree,
    tr2: Tree,
    so: Seq<u32>,
    m: int,
    t: int,
    left: int,
    b: int,
    l: int,
    prev: u64,
    key: u64,
    n0: u32,
    n1: u32,
    fo: u32,
    closed0: nat,
    g0: nat,
    depth: int,
    lo0: Seq<int>,
    hi0: Seq<int>,
    gs0: Seq<(u64, int, int, int)>,
    grp: (u64, int, int, int),
)
    requires
        close_facts(tr0, tr1, tr2, so, m, t, left, b, l, prev, key, n0, n1, fo, closed0, g0, depth),
        grp.0 == key,
        lo0.len() == t,
        hi0.len() == t,
        forall|u: int| 0 <= u < t ==> #[trigger] node_run_ok(tr0, lo0, hi0, gs0, depth, u),
        gs0.len() >= 1,
        gs0.last().0 == prev,
        lo0[so[0] as int] == 0,
        forall|i: int| 0 <= i < so.len() ==> #[trigger] hi0[so[i] as int] == gs0.len(),
    ensures
        runs_ok(tr2, runs_after(lo0, hi0, so, m, t, left, gs0.len() as int).0, runs_after(lo0, hi0, so, m, t, left, gs0.len() as int).1, gs0.push(grp), depth),
        runs_after(lo0, hi0, so, m, t, left, gs0.len() as int).0[t] == gs0.len(),
        runs_after(lo0, hi0, so, m, t, left, gs0.len() as int).0[so.subrange(0, m).push(b as u32).push(t as u32)[0] as int] == 0,
        forall|i: int|
            0 <= i < m + 2 ==> #[trigger] runs_after(lo0, hi0, so, m, t, left, gs0.len() as int).1[so.subrange(0, m).push(
                b as u32,
            ).push(t as u32)[i] as int] == gs0.len() + 1,
{
    let g = gs0.len() as int;
    let lo2 = runs_after(lo0, hi0, so, m, t, left, g).0;
    let hi2 = runs_after(lo0, hi0, so, m, t, left, g).1;
    let gs = gs0.push(grp);
    let sm = so.subrange(0, m);
    let ns = sm.push(b as u32).push(t as u32);
    assert(b == t + 1);
    assert(forall|u: int| 0 <= u < g ==> #[trigger] gs[u] == gs0[u]);
    assert(gs[g] == grp);
    assert(agree(key, prev, depth, l));
    // the old right edge
    assert(forall|i: int| 0 <= i < so.len() ==> #[trigger] so[i] < t);
    assert forall|j: int, k: int| 0 <= j < k < so.len() implies so[j] != so[k] by {
        assert(tr0.dep@[so[j] as int] < tr0.dep@[so[k] as int]);
    }
    assert forall|u: int| 0 <= u < t implies (#[trigger] sm.contains(u as u32) <==> exists|j: int| 0 <= j < m && so[j] == u as u32) by {
        if sm.contains(u as u32) {
            let k = choose|k: int| 0 <= k < sm.len() && sm[k] == u as u32;
            assert(so[k] == u as u32);
        }
        if exists|j: int| 0 <= j < m && so[j] == u as u32 {
            let j = choose|j: int| 0 <= j < m && so[j] == u as u32;
            assert(sm[j] == u as u32);
        }
    }
    assert(!sm.contains(left as u32)) by {
        if sm.contains(left as u32) {
            let j = choose|j: int| 0 <= j < m && so[j] == left as u32;
            assert(so[j] != so[m]);
        }
    }
    // the previous key lies in every run of the old right edge
    assert(lo0[left] < g) by {
        assert(node_run_ok(tr0, lo0, hi0, gs0, depth, left));
    }
    assert(gs0[g - 1].0 == prev);
    assert forall|u: int| 0 <= u < tr2.size() implies #[trigger] node_run_ok(tr2, lo2, hi2, gs, depth, u) by {
        if u == t {
            assert(tr2.ch0@[u] == NONE);
            assert(lo2[u] == g && hi2[u] == g + 1);
            assert(run_agrees(gs, g, g + 1, depth, tr2.dep@[u] as int)) by {
                assert forall|x: int| g <= x < g + 1 implies #[trigger] agree(gs[x].0, gs[g].0, depth, tr2.dep@[u] as int) by {
                    assert(x == g);
                }
            }
        } else if u == b {
            assert(tr2.ch0@[u] == left);
            assert(tr2.ch1@[u] == t);
            assert(tr2.dep@[u] == l);
            assert(node_run_ok(tr0, lo0, hi0, gs0, depth, left));
            assert(lo2[left] == lo0[left]);
            assert(hi2[left] == hi0[left]);
            assert(hi0[left] == g);
            let ll = lo0[left];
            let dl = tr0.dep@[left] as int;
            assert(dl > l);
            assert(agree(prev, gs0[ll].0, depth, dl)) by {
                assert(agree(gs0[g - 1].0, gs0[ll].0, depth, dl));
            }
            assert(run_bit(gs, ll, g, depth, l, 0)) by {
                assert forall|x: int| ll <= x < g implies #[trigger] key_bit(gs[x].0, depth, l) == 0 by {
                    assert(agree(gs0[x].0, gs0[ll].0, depth, dl));
                    lemma_agree_sym(prev, gs0[ll].0, depth, dl);
                    lemma_agree_trans(gs0[x].0, gs0[ll].0, prev, depth, dl, dl, dl);
                    assert(key_bit(gs0[x].0, depth, l) == key_bit(prev, depth, l));
                }
            }
            assert(run_bit(gs, g, g + 1, depth, l, 1)) by {
                assert forall|x: int| g <= x < g + 1 implies #[trigger] key_bit(gs[x].0, depth, l) == 1 by {
                    assert(x == g);
                }
            }
            assert(run_agrees(gs, ll, g + 1, depth, l)) by {
                assert forall|x: int| ll <= x < g + 1 implies #[trigger] agree(gs[x].0, gs[ll].0, depth, l) by {
                    if x < g {
                        assert(agree(gs0[x].0, gs0[ll].0, depth, dl));
                        lemma_agree_trans(gs0[x].0, gs0[ll].0, gs0[ll].0, depth, dl, dl, l);
                    } else {
                        lemma_agree_trans(key, prev, gs0[ll].0, depth, l, dl, l);
                    }
                }
            }
        } else {
            assert(u < t);
            assert(lo2[u] == lo0[u]);
            assert(node_run_ok(tr0, lo0, hi0, gs0, depth, u));
            assert(tr2.dep@[u] == tr0.dep@[u]);
            assert(tr2.ch0@[u] == tr0.ch0@[u]);
            if sm.contains(u as u32) {
                let j = choose|j: int| 0 <= j < m && so[j] == u as u32;
                let du = tr0.dep@[u] as int;
                assert(hi2[u] == g + 1);
                assert(hi0[u] == g);
                assert(du < l) by {
                    if j < m - 1 {
                        assert(tr0.dep@[so[j] as int] < tr0.dep@[so[m - 1] as int]);
                    }
                }
                assert(key_bit(prev, depth, du) == 1) by {
                    assert(j < so.len() - 1);
                }
                assert(key_bit(key, depth, du) == 1) by {
                    assert(key_bit(prev, depth, du) == key_bit(key, depth, du));
                }
                // the run of u now reaches the new group
                assert(run_agrees(gs, lo0[u], g + 1, depth, du)) by {
                    assert forall|x: int| lo0[u] <= x < g + 1 implies #[trigger] agree(gs[x].0, gs[lo0[u]].0, depth, du) by {
                        if x < g {
                            assert(agree(gs0[x].0, gs0[lo0[u]].0, depth, du));
                        } else {
                            assert(agree(gs0[g - 1].0, gs0[lo0[u]].0, depth, du));
                            lemma_agree_trans(key, prev, gs0[lo0[u]].0, depth, l, du, du);
                        }
                    }
                }
                // its children: the first stays, the second grows (or is the new branching)
                let a = tr0.ch0@[u] as int;
                let c0 = tr0.ch1@[u] as int;
                assert(tr0.ch1@[so[j] as int] == so[j + 1]);
                assert(node_ok(tr0, u, depth));
                assert(so[j + 1] < t);
                assert(a != NONE);
                assert(tr2.ch0@[u] == a);
                assert(!sm.contains(a as u32)) by {
                    if sm.contains(a as u32) {
                        let k = choose|k: int| 0 <= k < m && so[k] == a as u32;
                        assert(tr0.par@[a] == u);
                        if k == 0 {
                            assert(tr0.par@[so[0] as int] == NONE);
                        } else {
                            assert(tr0.par@[so[k] as int] == so[k - 1]);
                            assert(so[k - 1] == so[j]);
                            assert(k - 1 == j);
                        }
                    }
                }
                assert(a < t);
                assert(lo2[a] == lo0[a] && hi2[a] == hi0[a]);
                assert(node_run_ok(tr0, lo0, hi0, gs0, depth, a));
                assert(node_run_ok(tr0, lo0, hi0, gs0, depth, c0));
                let c = tr2.ch1@[u] as int;
                if j == m - 1 {
                    assert(c0 == left);
                    assert(c == b);
                    assert(lo2[c] == lo0[left]);
                } else {
                    assert(c0 == so[j + 1]);
                    assert(c == c0);
                    assert(sm.contains(c as u32)) by {
                        assert(sm[j + 1] == c as u32);
                    }
                    assert(hi2[c] == g + 1);
                }
                assert(run_bit(gs, lo2[a], hi2[a], depth, du, 0)) by {
                    assert forall|x: int| lo2[a] <= x < hi2[a] implies #[trigger] key_bit(gs[x].0, depth, du) == 0 by {
                        assert(key_bit(gs0[x].0, depth, du) == 0);
                    }
                }
                assert(run_bit(gs, lo2[c], hi2[c], depth, du, 1)) by {
                    assert forall|x: int| lo2[c] <= x < hi2[c] implies #[trigger] key_bit(gs[x].0, depth, du) == 1 by {
                        if x < g {
                            assert(lo0[c0] <= x < hi0[c0]);
                            assert(key_bit(gs0[x].0, depth, du) == 1);
                        }
                    }
                }
            } else {
                assert(hi2[u] == hi0[u]);
                if tr0.ch0@[u] != NONE {
                    let a = tr0.ch0@[u] as int;
                    let c = tr0.ch1@[u] as int;
                    assert(node_ok(tr0, u, depth));
                    assert(tr2.ch1@[u] == c) by {
                        if m > 0 {
                            assert(u != so[m - 1]) by {
                                assert(sm[m - 1] == so[m - 1]);
                            }
                        }
                    }
                    assert forall|x: int| x == a || x == c implies !#[trigger] sm.contains(x as u32) && x < t by {
                        if sm.contains(x as u32) {
                            let k = choose|k: int| 0 <= k < m && so[k] == x as u32;
                            assert(tr0.par@[x] == u);
                            if k == 0 {
                                assert(tr0.par@[so[0] as int] == NONE);
                            } else {
                                assert(tr0.par@[so[k] as int] == so[k - 1]);
                                assert(sm[k - 1] == so[k - 1]);
                            }
                        }
                    }
                    assert(lo2[a] == lo0[a] && hi2[a] == hi0[a] && lo2[c] == lo0[c] && hi2[c] == hi0[c]);
                    assert(node_run_ok(tr0, lo0, hi0, gs0, depth, a));
                    assert(node_run_ok(tr0, lo0, hi0, gs0, depth, c));
                    assert(run_bit(gs, lo2[a], hi2[a], depth, tr2.dep@[u] as int, 0)) by {
                        assert forall|x: int| lo2[a] <= x < hi2[a] implies #[trigger] key_bit(gs[x].0, depth, tr2.dep@[u] as int) == 0 by {
                            assert(key_bit(gs0[x].0, depth, tr0.dep@[u] as int) == 0);
                        }
                    }
                    assert(run_bit(gs, lo2[c], hi2[c], depth, tr2.dep@[u] as int, 1)) by {
                        assert forall|x: int| lo2[c] <= x < hi2[c] implies #[trigger] key_bit(gs[x].0, depth, tr2.dep@[u] as int) == 1 by {
                            assert(key_bit(gs0[x].0, depth, tr0.dep@[u] as int) == 1);
                        }
                    }
                }
                assert(run_agrees(gs, lo2[u], hi2[u], depth, tr2.dep@[u] as int)) by {
                    assert forall|x: int| lo2[u] <= x < hi2[u] implies #[trigger] agree(gs[x].0, gs[lo2[u]].0, depth, tr2.dep@[u] as int) by {
                        assert(agree(gs0[x].0, gs0[lo0[u]].0, depth, tr0.dep@[u] as int));
                    }
                }
            }
        }
    }
    assert(ns[0] == if m > 0 { so[0] } else { b as u32 });
    assert forall|i: int| 0 <= i < m + 2 implies #[trigger] hi2[ns[i] as int] == g + 1 by {
        if i < m {
            assert(ns[i] == so[i]);
            assert(sm.contains(so[i]) ) by {
                assert(sm[i] == so[i]);
            }
        }
    }
}

/// The tree is the compressed trie of the groups: its terminals are the
/// groups in order, with their counts and least positions; every node covers
/// a run of them, split at a branching by the bit at its depth; the root
/// covers them all.
pub open spec fn patricia_of(tr: Tree, root: int, gs: Seq<(u64, int, int, int)>, depth: int) -> bool {
    exists|terms: Seq<u32>, lo: Seq<int>, hi: Seq<int>|
        #![trigger terminals_ok(tr, terms, gs), runs_ok(tr, lo, hi, gs, depth)]
        terminals_ok(tr, terms, gs) && runs_ok(tr, lo, hi, gs, depth) && lo[root] == 0 && hi[root] == gs.len()
            && forall|g: int| 0 <= g < terms.len() ==> lo[#[trigger] terms[g] as int] == g
}

/// Closing a group makes its terminal the last one; the earlier terminals
/// stay terminals with their counts, and the new branching is not one.
proof fn lemma_close_terms(
    tr0: Tree,
    tr1: Tree,
    tr2: Tree,
    so: Seq<u32>,
    m: int,
    t: int,
    left: int,
    b: int,
    l: int,
    prev: u64,
    key: u64,
    n0: u32,
    n1: u32,
    fo: u32,
    closed0: nat,
    g0: nat,
    depth: int,
    terms0: Seq<u32>,
    done0: Seq<(u64, int, int, int)>,
    grp: (u64, int, int, int),
)
    requires
        close_facts(tr0, tr1, tr2, so, m, t, left, b, l, prev, key, n0, n1, fo, closed0, g0, depth),
        grp == (key, n0 as int, n1 as int, fo as int),
        terms0.len() == done0.len(),
        terms0.no_duplicates(),
        forall|g: int|
            0 <= g < terms0.len() ==> {
                let u = #[trigger] terms0[g] as int;
                &&& u < t
                &&& tr0.ch0@[u] == NONE
                &&& tr0.n0@[u] == done0[g].1
                &&& tr0.n1@[u] == done0[g].2
                &&& tr0.fo@[u] == done0[g].3
            },
        forall|u: int| 0 <= u < t && #[trigger] tr0.ch0@[u] == NONE ==> terms0.contains(u as u32),
    ensures
        terminals_ok(tr2, terms0.push(t as u32), done0.push(grp)),
{
    let tn = terms0.push(t as u32);
    let gs = done0.push(grp);
    // the nodes of the spine that grew are branchings, not terminals
    assert forall|u: int| 0 <= u < t && #[trigger] tr0.ch0@[u] == NONE implies forall|j: int| 0 <= j < m ==> so[j] != u by {
        assert forall|j: int| 0 <= j < m implies so[j] != u by {
            assert(tr0.ch1@[so[j] as int] == so[j + 1]);
            assert(node_ok(tr0, so[j] as int, depth));
        }
    }
    assert forall|g: int| 0 <= g < tn.len() implies {
        let u = #[trigger] tn[g] as int;
        &&& u < tr2.size()
        &&& tr2.ch0@[u] == NONE
        &&& tr2.n0@[u] == gs[g].1
        &&& tr2.n1@[u] == gs[g].2
        &&& tr2.fo@[u] == gs[g].3
    } by {
        let u = tn[g] as int;
        if g < terms0.len() {
            assert(tn[g] == terms0[g]);
            assert(tr0.ch0@[u] == NONE);
            assert(forall|j: int| 0 <= j < m ==> so[j] != u);
            assert(tr1.n0@[u] == tr0.n0@[u]);
            assert(tr1.n1@[u] == tr0.n1@[u]);
            assert(tr1.fo@[u] == tr0.fo@[u]);
            assert(u < t);
            assert(tr2.ch0@[u] == tr1.ch0@[u]);
            assert(tr2.n0@[u] == tr1.n0@[u]);
            assert(tr2.n1@[u] == tr1.n1@[u]);
            assert(tr2.fo@[u] == tr1.fo@[u]);
            assert(gs[g] == done0[g]);
        } else {
            assert(u == t);
            assert(forall|j: int| 0 <= j < m ==> so[j] != u) by {
                assert forall|j: int| 0 <= j < m implies so[j] != u by {
                    assert(so[j] < t);
                }
            }
            assert(tr1.n0@[u] == tr0.n0@[u]);
            assert(tr1.n1@[u] == tr0.n1@[u]);
            assert(tr1.fo@[u] == tr0.fo@[u]);
            assert(gs[g] == grp);
        }
    }
    assert forall|u: int| 0 <= u < tr2.size() && #[trigger] tr2.ch0@[u] == NONE implies tn.contains(u as u32) by {
        if u == t {
            assert(tn[tn.len() - 1] == t as u32);
        } else {
            assert(u != b);
            assert(u < t);
            assert(tr0.ch0@[u] == NONE);
            let k = choose|k: int| 0 <= k < terms0.len() && terms0[k] == u as u32;
            assert(tn[k] == u as u32);
        }
    }
    assert(tn.no_duplicates()) by {
        assert forall|i: int, j: int| 0 <= i < tn.len() && 0 <= j < tn.len() && i != j implies tn[i] != tn[j] by {
            if i < terms0.len() && j < terms0.len() {
                assert(terms0[i] != terms0[j]);
            } else if i < terms0.len() {
                assert(terms0[i] < t);
            } else if j < terms0.len() {
                assert(terms0[j] < t);
            }
        }
    }
}

/// Builds the tree from the records in key order, closing one group of equal
/// keys at a time into a terminal and hanging it at the LCP with the previous
/// key along the right edge.
pub struct Builder {
    tr: Tree,
    stack: Vec<u32>,
    depth: usize,
    /// The current group of equal keys: the future terminal.
    cur_key: u64,
    cur_n0: u32,
    cur_n1: u32,
    cur_fo: u32,
    have_group: bool,
    /// The key of the last closed group.
    prev_key: u64,
    /// Records taken so far, and those closed into terminals.
    records: Ghost<nat>,
    closed: Ghost<nat>,
    /// The records taken so far, the groups closed into terminals, and those
    /// terminals.
    input: Ghost<Seq<(u64, u64, u8)>>,
    done_groups: Ghost<Seq<(u64, int, int, int)>>,
    terms: Ghost<Seq<u32>>,
    /// The run of closed groups that each node covers.
    lo: Ghost<Seq<int>>,
    hi: Ghost<Seq<int>>,
}

impl Builder {
    /// The builder is consistent: every node of the tree agrees with its
    /// children and parent, the stack is the right edge, and the counts stay
    /// within the records closed so far.
    pub closed spec fn wf(&self) -> bool {
        &&& self.core_ok()
        &&& self.groups_ok()
        &&& !self.have_group ==> self.stack@.len() == 0
    }

    /// The closed groups and the current one are the groups of the records
    /// taken, and each closed group is a terminal of the tree.
    closed spec fn groups_ok(&self) -> bool {
        &&& self.input@.len() == self.records@
        &&& groups(self.input@) == self.done_groups@ + if self.have_group {
            seq![(self.cur_key, self.cur_n0 as int, self.cur_n1 as int, self.cur_fo as int)]
        } else {
            Seq::empty()
        }
        &&& terminals_ok(self.tr, self.terms@, self.done_groups@)
        &&& runs_ok(self.tr, self.lo@, self.hi@, self.done_groups@, self.depth as int)
        &&& forall|g: int| 0 <= g < self.terms@.len() ==> self.lo@[#[trigger] self.terms@[g] as int] == g
        &&& self.stack@.len() > 0 ==> self.lo@[self.stack@[0] as int] == 0 && forall|i: int|
            0 <= i < self.stack@.len() ==> #[trigger] self.hi@[self.stack@[i] as int] == self.done_groups@.len()
        &&& self.done_groups@.len() > 0 ==> self.done_groups@.last().0 == self.prev_key
        &&& (self.stack@.len() == 0) == (self.done_groups@.len() == 0)
    }

    /// The records taken so far: key, position, label.
    pub closed spec fn input(&self) -> Seq<(u64, u64, u8)> {
        self.input@
    }

    /// As `wf`, also between closing a group and taking the next record.
    closed spec fn core_ok(&self) -> bool {
        let tr = self.tr;
        let depth = self.depth as int;
        &&& 1 <= self.depth <= 63
        &&& tr.same_len()
        &&& self.records@ <= 0xFFFF_FFFF
        &&& self.done_groups@.len() + (if self.have_group { 1int } else { 0 }) < 0x7FFF_FFFF
        &&& self.records@ == self.closed@ + self.cur_n0 + self.cur_n1
        &&& self.have_group ==> self.cur_n0 + self.cur_n1 >= 1 && self.cur_key < (1u64 << self.depth)
        &&& !self.have_group ==> self.cur_n0 == 0 && self.cur_n1 == 0
        &&& tr.size() <= 2 * self.done_groups@.len()
        &&& forall|u: int| 0 <= u < tr.size() ==> #[trigger] node_ok(tr, u, depth)
        &&& forall|u: int| 0 <= u < tr.size() ==> #[trigger] tr.n0@[u] + tr.n1@[u] <= self.closed@
        &&& (self.stack@.len() == 0) == (self.closed@ == 0)
        &&& self.stack@.len() == 0 ==> tr.size() == 0
        &&& self.stack@.len() > 0 ==> {
            &&& spine_ok(tr, self.stack@, depth, self.prev_key)
            &&& forall|u: int| 0 <= u < tr.size() && #[trigger] tr.par@[u] == NONE ==> u == self.stack@[0]
            &&& tr.n0@[self.stack@[0] as int] + tr.n1@[self.stack@[0] as int] == self.closed@
            &&& self.prev_key < (1u64 << self.depth)
            &&& self.have_group ==> self.prev_key < self.cur_key
        }
    }

    /// Number of records taken so far.
    pub closed spec fn records_seen(&self) -> nat {
        self.records@
    }

    /// Number of distinct keys taken so far.
    pub closed spec fn keys_seen(&self) -> nat {
        self.done_groups@.len() + if self.have_group { 1nat } else { 0nat }
    }

    /// The key of the last record taken.
    pub closed spec fn last_key(&self) -> Option<u64> {
        if self.have_group {
            Some(self.cur_key)
        } else {
            None
        }
    }

    /// The depth of the keys.
    pub closed spec fn key_depth(&self) -> int {
        self.depth as int
    }

    /// A builder for keys of `depth` bits, with room for `cap` nodes.
    pub fn new(depth: usize, cap: usize) -> (b: Builder)
        requires
            1 <= depth <= 63,
        ensures
            b.wf(),
            b.records_seen() == 0,
            b.last_key() is None,
            b.key_depth() == depth,
            b.input() == Seq::<(u64, u64, u8)>::empty(),
    {
        Builder {
            tr: Tree::with_capacity(cap),
            stack: Vec::with_capacity(depth + 2),
            depth,
            cur_key: 0,
            cur_n0: 0,
            cur_n1: 0,
            cur_fo: NONE,
            have_group: false,
            prev_key: 0,
            records: Ghost(0),
            closed: Ghost(0),
            input: Ghost(Seq::empty()),
            done_groups: Ghost(Seq::empty()),
            terms: Ghost(Seq::empty()),
            lo: Ghost(Seq::empty()),
            hi: Ghost(Seq::empty()),
        }
    }

    /// Takes one record: its key, the position of its first occurrence and the
    /// next bit. Keys come in order; equal keys form one group.
    pub fn add(&mut self, key: u64, pos: u64, label: u8)
        requires
            old(self).wf(),
            key < (1u64 << old(self).key_depth()),
            old(self).records_seen() + 1 <= 0xFFFF_FFFF,
            old(self).keys_seen() + (if old(self).last_key() == Some(key) { 0int } else { 1 }) < 0x7FFF_FFFF,
            old(self).last_key() matches Some(k) ==> k <= key,
        ensures
            final(self).wf(),
            final(self).records_seen() == old(self).records_seen() + 1,
            final(self).last_key() == Some(key),
            final(self).key_depth() == old(self).key_depth(),
            final(self).input() == old(self).input().push((key, pos, label)),
    {
        let p = pos as u32;
        let ghost rec = (key, pos, label);
        let ghost in0 = self.input@;
        proof {
            assert(in0.push(rec).drop_last() == in0);
            assert(in0.push(rec).last() == rec);
        }
        if self.have_group && key == self.cur_key {
            let ghost h = (self.cur_key, self.cur_n0 as int, self.cur_n1 as int, self.cur_fo as int);
            if label == 0 {
                self.cur_n0 = self.cur_n0 + 1;
            } else {
                self.cur_n1 = self.cur_n1 + 1;
            }
            if p < self.cur_fo {
                self.cur_fo = p;
            }
            self.records = Ghost(self.records@ + 1);
            self.input = Ghost(in0.push(rec));
            proof {
                let g = groups(in0);
                assert(g == self.done_groups@ + seq![h]);
                assert(g.last() == h);
                assert(groups(self.input@) =~= self.done_groups@ + seq![
                    (self.cur_key, self.cur_n0 as int, self.cur_n1 as int, self.cur_fo as int),
                ]);
            }
            return;
        }
        let ghost had = self.have_group;
        let ghost ck = self.cur_key;
        if self.have_group {
            self.close_group();
        }
        proof {
            assert(groups(in0) == self.done_groups@ + Seq::<(u64, int, int, int)>::empty());
            assert(groups(in0) =~= self.done_groups@);
            if had {
                assert(self.done_groups@.last().0 == ck);
                assert(key != ck);
            } else {
                assert(in0.len() == 0);
            }
        }
        let ghost done = self.done_groups@;
        self.cur_key = key;
        self.cur_n0 = if label == 0 { 1 } else { 0 };
        self.cur_n1 = if label == 0 { 0 } else { 1 };
        self.cur_fo = p;
        self.have_group = true;
        self.records = Ghost(self.records@ + 1);
        self.input = Ghost(in0.push(rec));
        proof {
            assert(groups(self.input@) =~= done + seq![
                (self.cur_key, self.cur_n0 as int, self.cur_n1 as int, self.cur_fo as int),
            ]);
        }
    }

    /// Closes the last group and gives the tree and its root (the bottom of
    /// the stack, not the last node created). None: no record was taken.
    pub fn finish(self) -> (r: Option<(Tree, u32)>)
        requires
            self.wf(),
        ensures
            r is None <==> self.records_seen() == 0,
            r matches Some((tr, root)) ==> {
                &&& tree_ok(tr, root as int, self.key_depth())
                &&& tr.n0@[root as int] + tr.n1@[root as int] == self.records_seen()
                &&& patricia_of(tr, root as int, groups(self.input()), self.key_depth())
            },
    {
        let mut me = self;
        if me.have_group {
            me.close_group();
        }
        if me.stack.len() == 0 {
            return None;
        }
        let root = me.stack[0];
        proof {
            assert(me.tr.size() < NONE);
            assert(groups(me.input@) =~= me.done_groups@);
            assert(terminals_ok(me.tr, me.terms@, groups(self.input())));
            assert(runs_ok(me.tr, me.lo@, me.hi@, groups(self.input()), me.depth as int));
            assert(me.hi@[root as int] == groups(self.input()).len()) by {
                assert(me.stack@[0] == root);
            }
        }
        Some((me.tr, root))
    }

    /// Closes the current group into a terminal.
    #[verifier::rlimit(100)]
    fn close_group(&mut self)
        requires
            old(self).wf(),
            old(self).have_group,
        ensures
            final(self).core_ok(),
            final(self).groups_ok(),
            !final(self).have_group,
            final(self).records == old(self).records,
            final(self).depth == old(self).depth,
            final(self).prev_key == old(self).cur_key,
            final(self).input == old(self).input,
            final(self).done_groups@ == old(self).done_groups@.push(
                (old(self).cur_key, old(self).cur_n0 as int, old(self).cur_n1 as int, old(self).cur_fo as int),
            ),
    {
        let depth = self.depth;
        let key = self.cur_key;
        let n0 = self.cur_n0;
        let n1 = self.cur_n1;
        let fo = self.cur_fo;
        let ghost g = n0 + n1;
        let ghost closed0 = self.closed@;
        let ghost g0: nat = self.done_groups@.len();
        let ghost terms0 = self.terms@;
        let ghost done0 = self.done_groups@;
        let ghost lo0 = self.lo@;
        let ghost hi0 = self.hi@;
        let ghost grp = (key, n0 as int, n1 as int, fo as int);
        proof {
            assert(self.tr.size() < NONE);
        }
        let ghost trp = self.tr;
        let t = self.tr.push(depth as u8, n0, n1, fo, NONE, NONE);
        proof {
            lemma_push_frame(trp, self.tr, depth as int, self.stack@, self.prev_key);
            assert(node_ok(self.tr, t as int, depth as int));
            assert forall|u: int| 0 <= u < t implies #[trigger] node_ok(self.tr, u, depth as int) by {
                assert(node_ok(trp, u, depth as int));
            }
        }
        if self.stack.len() == 0 {
            self.stack.push(t);
            self.have_group = false;
            self.cur_n0 = 0;
            self.cur_n1 = 0;
            self.prev_key = key;
            self.closed = Ghost((closed0 + g) as nat);
            self.done_groups = Ghost(done0.push(grp));
            self.terms = Ghost(terms0.push(t));
            self.lo = Ghost(Seq::empty().push(0int));
            self.hi = Ghost(Seq::empty().push(1int));
            proof {
                let tr = self.tr;
                assert(done0.len() == 0);
                assert(node_run_ok(tr, self.lo@, self.hi@, self.done_groups@, depth as int, 0)) by {
                    let gs = self.done_groups@;
                    assert forall|x: int| 0 <= x < 1 implies #[trigger] agree(gs[x].0, gs[0].0, depth as int, tr.dep@[0] as int) by {
                        assert(x == 0);
                    }
                }
                assert(self.stack@[0] == t);
                assert(node_ok(tr, 0, depth as int));
                assert(spine_ok(tr, self.stack@, depth as int, self.prev_key));
                assert(terms0.len() == 0) by {
                    if terms0.len() > 0 {
                        assert(terms0[0] < trp.size());
                    }
                }
                assert(groups(self.input@) =~= self.done_groups@ + Seq::<(u64, int, int, int)>::empty());
                assert(self.terms@ =~= seq![t]);
                assert(terminals_ok(tr, self.terms@, self.done_groups@)) by {
                    assert forall|u: int| 0 <= u < tr.size() && #[trigger] tr.ch0@[u] == NONE implies self.terms@.contains(u as u32) by {
                        assert(self.terms@[0] == u as u32);
                    }
                }
            }
            return;
        }
        let ghost tr0 = self.tr;
        let ghost so = self.stack@;
        let prev = self.prev_key;
        let l = lcp_depth(prev, key, depth);
        proof {
            assert(key_bit(prev, depth as int, l as int) == 0);
            assert(l < depth);
            lemma_key_bit(key, depth as int, l as int);
            assert forall|u: int| 0 <= u < tr0.size() implies #[trigger] node_ok(tr0, u, depth as int) by {
                if u < t {
                    assert(node_ok(trp, u, depth as int));
                }
            }
            assert forall|u: int| 0 <= u < t implies #[trigger] tr0.n0@[u] + tr0.n1@[u] <= closed0 by {
                assert(trp.n0@[u] + trp.n1@[u] <= closed0);
            }
            assert(forall|i: int| 0 <= i < so.len() ==> #[trigger] so[i] < t);
            assert forall|u: int| 0 <= u < t && #[trigger] tr0.par@[u] == NONE implies u == so[0] by {
                assert(trp.par@[u] == NONE);
            }
            assert(node_ok(tr0, so[so.len() - 1] as int, depth as int));
        }
        // Take off everything deeper than the branching: the last taken off is
        // the root of the finished left subtree.
        let mut left = NONE;
        let mut more = true;
        while more
            invariant
                self.records == old(self).records,
                self.closed == old(self).closed,
                self.input == old(self).input,
                self.done_groups == old(self).done_groups,
                self.terms == old(self).terms,
                self.lo == old(self).lo,
                self.hi == old(self).hi,
                self.depth == depth,
                self.cur_key == key,
                self.cur_n0 == n0,
                self.cur_n1 == n1,
                self.cur_fo == fo,
                self.prev_key == prev,
                self.have_group == old(self).have_group,
                self.tr == tr0,
                tr0.same_len(),
                spine_ok(tr0, so, depth as int, prev),
                so.len() >= 1,
                self.stack@.len() <= so.len(),
                self.stack@ == so.subrange(0, self.stack@.len() as int),
                more ==> self.stack@.len() >= 1,
                self.stack@.len() < so.len() ==> left == so[self.stack@.len() as int],
                self.stack@.len() == so.len() ==> more,
                forall|i: int| self.stack@.len() <= i < so.len() ==> tr0.dep@[#[trigger] so[i] as int] > l,
                !more ==> (self.stack@.len() == 0 || tr0.dep@[so[self.stack@.len() - 1] as int] <= l),
                l < depth,
                depth <= 63,
                tr0.dep@[so[so.len() - 1] as int] == depth,
            decreases self.stack@.len() + (if more { 1int } else { 0 }),
        {
            let top = self.stack[self.stack.len() - 1];
            if self.tr.dep[top as usize] as usize > l {
                self.stack.pop();
                left = top;
                proof {
                    assert(self.stack@ =~= so.subrange(0, self.stack@.len() as int));
                }
                if self.stack.len() == 0 {
                    more = false;
                }
            } else {
                more = false;
            }
        }
        let ghost m = self.stack@.len() as int;
        proof {
            assert(m < so.len());
            assert(left == so[m]);
            if m > 0 {
                // a branching on the edge at depth l would send the previous key
                // right, but it goes left of the new one there
                assert(key_bit(prev, depth as int, tr0.dep@[so[m - 1] as int] as int) == 1);
                assert(tr0.dep@[so[m - 1] as int] < l);
            }
        }
        // The surviving stack holds the ancestors of the new terminal: their
        // subtrees grew by it.
        let mut i: usize = 0;
        while i < self.stack.len()
            invariant
                self.records == old(self).records,
                self.closed == old(self).closed,
                self.input == old(self).input,
                self.done_groups == old(self).done_groups,
                self.terms == old(self).terms,
                self.lo == old(self).lo,
                self.hi == old(self).hi,
                self.depth == depth,
                self.cur_key == key,
                self.cur_n0 == n0,
                self.cur_n1 == n1,
                self.cur_fo == fo,
                self.prev_key == prev,
                self.have_group == old(self).have_group,
                0 <= m < so.len(),
                self.stack@ == so.subrange(0, m),
                i <= m,
                spine_ok(tr0, so, depth as int, prev),
                self.tr.same_len(),
                self.tr.size() == tr0.size(),
                self.tr.ch0@ == tr0.ch0@,
                self.tr.ch1@ == tr0.ch1@,
                self.tr.par@ == tr0.par@,
                self.tr.dep@ == tr0.dep@,
                forall|u: int| 0 <= u < t ==> #[trigger] tr0.n0@[u] + tr0.n1@[u] <= closed0,
                forall|jj: int| 0 <= jj < so.len() ==> #[trigger] so[jj] < t,
                t < tr0.size(),
                closed0 + g <= 0xFFFF_FFFF,
                forall|j: int|
                    0 <= j < m ==> #[trigger] self.tr.n0@[so[j] as int] == (if j < i {
                        tr0.n0@[so[j] as int] + n0
                    } else {
                        tr0.n0@[so[j] as int] as int
                    }) && self.tr.n1@[so[j] as int] == (if j < i {
                        tr0.n1@[so[j] as int] + n1
                    } else {
                        tr0.n1@[so[j] as int] as int
                    }) && self.tr.fo@[so[j] as int] == (if j < i {
                        min_u32(tr0.fo@[so[j] as int], fo)
                    } else {
                        tr0.fo@[so[j] as int]
                    }),
                forall|u: int|
                    0 <= u < tr0.size() && (forall|j: int| 0 <= j < m ==> so[j] != u) ==> #[trigger] self.tr.n0@[u]
                        == tr0.n0@[u] && self.tr.n1@[u] == tr0.n1@[u] && self.tr.fo@[u] == tr0.fo@[u],
                g == n0 + n1,
            decreases m - i,
        {
            let a = self.stack[i] as usize;
            proof {
                assert(so[i as int] == a);
                assert forall|j: int| 0 <= j < m && j != i implies so[j] != a by {
                    if j < i {
                        assert(tr0.dep@[so[j] as int] < tr0.dep@[so[i as int] as int]);
                    } else {
                        assert(tr0.dep@[so[i as int] as int] < tr0.dep@[so[j] as int]);
                    }
                }
                assert(self.tr.n0@[a as int] == tr0.n0@[a as int]);
                assert(tr0.n0@[a as int] + tr0.n1@[a as int] <= closed0);
            }
            let ghost before = self.tr;
            let v0 = self.tr.n0[a] + n0;
            self.tr.n0.set(a, v0);
            let v1 = self.tr.n1[a] + n1;
            self.tr.n1.set(a, v1);
            if fo < self.tr.fo[a] {
                self.tr.fo.set(a, fo);
            }
            proof {
                assert(self.tr.fo@[a as int] == min_u32(tr0.fo@[a as int], fo));
                assert forall|j: int| 0 <= j < m implies #[trigger] self.tr.n0@[so[j] as int] == (if j < i + 1 {
                    tr0.n0@[so[j] as int] + n0
                } else {
                    tr0.n0@[so[j] as int] as int
                }) && self.tr.n1@[so[j] as int] == (if j < i + 1 {
                    tr0.n1@[so[j] as int] + n1
                } else {
                    tr0.n1@[so[j] as int] as int
                }) && self.tr.fo@[so[j] as int] == (if j < i + 1 {
                    min_u32(tr0.fo@[so[j] as int], fo)
                } else {
                    tr0.fo@[so[j] as int]
                }) by {
                    if j != i {
                        assert(so[j] != a);
                        assert(before.n0@[so[j] as int] == self.tr.n0@[so[j] as int]);
                    }
                }
                assert forall|u: int|
                    0 <= u < tr0.size() && (forall|j: int| 0 <= j < m ==> so[j] != u) implies #[trigger] self.tr.n0@[u]
                        == tr0.n0@[u] && self.tr.n1@[u] == tr0.n1@[u] && self.tr.fo@[u] == tr0.fo@[u] by {
                    assert(so[i as int] != u);
                    assert(before.n0@[u] == tr0.n0@[u]);
                }
            }
            i += 1;
        }
        let ghost tr1 = self.tr;
        proof {
            assert(left < tr0.size());
            assert forall|j: int| 0 <= j < m implies so[j] != left by {
                assert(tr0.dep@[so[j] as int] < tr0.dep@[so[m] as int]);
            }
            assert(tr1.n0@[left as int] == tr0.n0@[left as int]);
        }
        let n0b = self.tr.n0[left as usize] + n0;
        let n1b = self.tr.n1[left as usize] + n1;
        let fob = if self.tr.fo[left as usize] <= fo { self.tr.fo[left as usize] } else { fo };
        // The new branching takes the place of `left` under its old parent.
        let old_par = self.tr.par[left as usize];
        proof {
            assert(self.tr.size() < NONE);
        }
        let b = self.tr.push(l as u8, n0b, n1b, fob, left, t);
        self.tr.par.set(left as usize, b);
        self.tr.par.set(t as usize, b);
        if old_par != NONE {
            let p = old_par as usize;
            if self.tr.ch1[p] == left {
                self.tr.ch1.set(p, b);
            } else {
                self.tr.ch0.set(p, b);
            }
            self.tr.par.set(b as usize, old_par);
        }
        self.stack.push(b);
        self.stack.push(t);
        self.have_group = false;
        self.cur_n0 = 0;
        self.cur_n1 = 0;
        self.prev_key = key;
        self.closed = Ghost((closed0 + g) as nat);
        proof {
            assert(i as int == m);
            assert forall|j: int| 0 <= j < m implies #[trigger] tr1.n0@[so[j] as int] == tr0.n0@[so[j] as int] + n0
                && tr1.n1@[so[j] as int] == tr0.n1@[so[j] as int] + n1 && tr1.fo@[so[j] as int] == min_u32(
                tr0.fo@[so[j] as int],
                fo,
            ) by {
                assert(j < i);
            }
        }
        proof {
            let tr2 = self.tr;
            let t = t as int;
            let left = left as int;
            let b = b as int;
            let l = l as int;
            let depth = depth as int;
            assert(close_before(tr0, tr1, tr2, so, m, t, left, b, l, prev, key, n0, n1, fo, closed0, g0, depth)) by {
                assert(1 <= depth <= 63);
                assert(0 <= l < depth);
                assert(n0 + n1 >= 1);
                assert(closed0 + n0 + n1 <= 0xFFFF_FFFF);
                assert(g0 + 1 < 0x7FFF_FFFF);
                assert(tr0.same_len());
                assert(t == tr0.size() - 1);
                assert(t <= 2 * g0);
                assert(tr0.ch0@[t] == NONE);
                assert(tr0.ch1@[t] == NONE);
                assert(tr0.par@[t] == NONE);
                assert(tr0.dep@[t] == depth);
                assert(tr0.n0@[t] == n0);
                assert(tr0.n1@[t] == n1);
                assert(tr0.fo@[t] == fo);
                assert(forall|u: int| 0 <= u < tr0.size() ==> #[trigger] node_ok(tr0, u, depth));
                assert(forall|u: int| 0 <= u < t ==> #[trigger] tr0.n0@[u] + tr0.n1@[u] <= closed0);
                assert(spine_ok(tr0, so, depth, prev));
                assert(forall|i: int| 0 <= i < so.len() ==> #[trigger] so[i] < t);
                assert(forall|u: int| 0 <= u < t && #[trigger] tr0.par@[u] == NONE ==> u == so[0]);
                assert(tr0.n0@[so[0] as int] + tr0.n1@[so[0] as int] == closed0);
                assert(forall|e: int| 0 <= e < l ==> #[trigger] key_bit(prev, depth, e) == key_bit(key, depth, e));
                assert(key_bit(prev, depth, l) == 0);
                assert(key_bit(key, depth, l) == 1);
                assert(0 <= m < so.len());
                assert(left == so[m]);
                assert(forall|i: int| m <= i < so.len() ==> tr0.dep@[#[trigger] so[i] as int] > l);
                assert(m > 0 ==> tr0.dep@[so[m - 1] as int] < l);
            }
            assert(close_counts(tr0, tr1, tr2, so, m, t, left, b, l, prev, key, n0, n1, fo, closed0, g0, depth)) by {
                assert(tr1.same_len());
                assert(tr1.size() == tr0.size());
                assert(tr1.ch0@ == tr0.ch0@);
                assert(tr1.ch1@ == tr0.ch1@);
                assert(tr1.par@ == tr0.par@);
                assert(tr1.dep@ == tr0.dep@);
                assert(forall|j: int| 0 <= j < m ==> #[trigger] tr1.n0@[so[j] as int] == tr0.n0@[so[j] as int] + n0 && tr1.n1@[so[j] as int] == tr0.n1@[so[j] as int] + n1 && tr1.fo@[so[j] as int] == min_u32(tr0.fo@[so[j] as int], fo));
                assert(forall|u: int| 0 <= u < tr0.size() && (forall|j: int| 0 <= j < m ==> so[j] != u) ==> #[trigger] tr1.n0@[u] == tr0.n0@[u] && tr1.n1@[u] == tr0.n1@[u] && tr1.fo@[u] == tr0.fo@[u]);
            }
            assert(close_links(tr0, tr1, tr2, so, m, t, left, b, l, prev, key, n0, n1, fo, closed0, g0, depth)) by {
                assert(b == tr0.size());
                assert(tr2.n0@ == tr1.n0@.push((tr1.n0@[left] + n0) as u32));
                assert(tr2.n1@ == tr1.n1@.push((tr1.n1@[left] + n1) as u32));
                assert(tr2.ch0@ == tr1.ch0@.push(left as u32));
                assert(tr2.ch1@ == (if m > 0 { tr1.ch1@.push(t as u32).update(so[m - 1] as int, b as u32) } else { tr1.ch1@.push(t as u32) }));
                assert(tr2.par@ == (if m > 0 { tr1.par@.push(NONE).update(left, b as u32).update(t, b as u32).update(b, so[m - 1]) } else { tr1.par@.push(NONE).update(left, b as u32).update(t, b as u32) }));
                assert(tr2.dep@ == tr1.dep@.push(l as u8));
                assert(tr2.fo@ == tr1.fo@.push(min_u32(tr1.fo@[left], fo)));
            }
            assert(close_facts(tr0, tr1, tr2, so, m, t, left, b, l, prev, key, n0, n1, fo, closed0, g0, depth));
        }
        proof {
            lemma_close_ok(tr0, tr1, self.tr, so, m, t as int, left as int, b as int, l as int, prev, key, n0, n1, fo, closed0, g0, depth as int);
            assert(self.stack@ == so.subrange(0, m).push(b).push(t));
        }
        self.done_groups = Ghost(done0.push(grp));
        self.terms = Ghost(terms0.push(t));
        proof {
            assert(groups(old(self).input@) == done0 + seq![grp]);
            assert(groups(self.input@) =~= self.done_groups@ + Seq::<(u64, int, int, int)>::empty());
            assert forall|gg: int| 0 <= gg < terms0.len() implies {
                let u = #[trigger] terms0[gg] as int;
                &&& u < t
                &&& tr0.ch0@[u] == NONE
                &&& tr0.n0@[u] == done0[gg].1
                &&& tr0.n1@[u] == done0[gg].2
                &&& tr0.fo@[u] == done0[gg].3
            } by {
                let u = terms0[gg] as int;
                assert(u < trp.size());
                assert(tr0.ch0@[u] == trp.ch0@[u]);
                assert(tr0.n0@[u] == trp.n0@[u]);
                assert(tr0.n1@[u] == trp.n1@[u]);
                assert(tr0.fo@[u] == trp.fo@[u]);
            }
            assert forall|u: int| 0 <= u < t && #[trigger] tr0.ch0@[u] == NONE implies terms0.contains(u as u32) by {
                assert(trp.ch0@[u] == NONE);
            }
            lemma_close_terms(tr0, tr1, self.tr, so, m, t as int, left as int, b as int, l as int, prev, key, n0, n1, fo, closed0, g0, depth as int, terms0, done0, grp);
            assert forall|u: int| 0 <= u < t implies #[trigger] node_run_ok(tr0, lo0, hi0, done0, depth as int, u) by {
                assert(node_run_ok(trp, lo0, hi0, done0, depth as int, u));
                assert(tr0.ch0@[u] == trp.ch0@[u]);
                assert(tr0.ch1@[u] == trp.ch1@[u]);
                assert(tr0.dep@[u] == trp.dep@[u]);
            }
            lemma_close_runs(tr0, tr1, self.tr, so, m, t as int, left as int, b as int, l as int, prev, key, n0, n1, fo, closed0, g0, depth as int, lo0, hi0, done0, grp);
        }
        self.lo = Ghost(runs_after(lo0, hi0, so, m, t as int, left as int, done0.len() as int).0);
        self.hi = Ghost(runs_after(lo0, hi0, so, m, t as int, left as int, done0.len() as int).1);
        proof {
            assert forall|gg: int| 0 <= gg < self.terms@.len() implies self.lo@[#[trigger] self.terms@[gg] as int] == gg by {
                if gg < terms0.len() {
                    assert(self.terms@[gg] == terms0[gg]);
                    assert(terms0[gg] < t) by {
                        assert(terms0[gg] < trp.size());
                    }
                } else {
                    assert(self.terms@[gg] == t);
                }
            }
            assert(self.done_groups@.last().0 == key);
        }
    }

}

/// Which input goes next in the k-way merge of sorted inputs: the one whose
/// head has the smallest key, the last such input among equal heads (the
/// order among equal keys does not matter: counts add up and first
/// occurrences take the minimum). None: all inputs are exhausted.
pub fn next_input(heads: &Vec<Option<u64>>) -> (r: Option<usize>)
    ensures
        r is None <==> forall|j: int| 0 <= j < heads@.len() ==> #[trigger] heads@[j] is None,
        r matches Some(i) ==> {
            &&& i < heads@.len()
            &&& heads@[i as int] is Some
            &&& forall|j: int|
                0 <= j < heads@.len() && #[trigger] heads@[j] is Some ==> heads@[i as int]->0 < heads@[j]->0 || (
                heads@[i as int]->0 == heads@[j]->0 && j <= i)
        },
{
    let mut best: Option<usize> = None;
    let mut j: usize = 0;
    while j < heads.len()
        invariant
            j <= heads@.len(),
            best is None <==> forall|k: int| 0 <= k < j ==> #[trigger] heads@[k] is None,
            best matches Some(i) ==> {
                &&& i < j
                &&& heads@[i as int] is Some
                &&& forall|k: int|
                    0 <= k < j && #[trigger] heads@[k] is Some ==> heads@[i as int]->0 < heads@[k]->0 || (
                    heads@[i as int]->0 == heads@[k]->0 && k <= i)
            },
        decreases heads@.len() - j,
    {
        if let Some(k) = heads[j] {
            let take = match best {
                None => true,
                Some(i) => match heads[i] {
                    Some(bk) => k <= bk,
                    None => true,
                },
            };
            if take {
                best = Some(j);
            }
        }
        j += 1;
    }
    best
}

/// Ordering key of a pruning candidate: (alpha, first occurrence, depth,
/// index), ascending. `alpha` is the candidate's cost-complexity ratio mapped
/// to an integer of the same order.
#[derive(Clone, Copy, Debug, PartialEq, Eq, Structural)]
pub struct Key {
    pub alpha: u64,
    pub fo: u32,
    pub dep: u8,
    pub idx: u32,
}

/// The lexicographic order of keys.
pub open spec fn key_lt(a: Key, b: Key) -> bool {
    a.alpha < b.alpha || (a.alpha == b.alpha && (a.fo < b.fo || (a.fo == b.fo && (a.dep < b.dep || (a.dep == b.dep
        && a.idx < b.idx)))))
}

impl Key {
    /// Strictly before `o` in the key order.
    pub fn lt(&self, o: &Key) -> (r: bool)
        ensures
            r == key_lt(*self, *o),
    {
        if self.alpha != o.alpha {
            return self.alpha < o.alpha;
        }
        if self.fo != o.fo {
            return self.fo < o.fo;
        }
        if self.dep != o.dep {
            return self.dep < o.dep;
        }
        self.idx < o.idx
    }
}

/// Not after: the order is total, so this is "before or equal".
pub proof fn lemma_key_order(a: Key, b: Key, c: Key)
    ensures
        !key_lt(a, a),
        key_lt(a, b) ==> !key_lt(b, a),
        !key_lt(a, b) && !key_lt(b, c) ==> !key_lt(a, c),
        key_lt(a, b) && !key_lt(c, b) ==> key_lt(a, c),
        !key_lt(b, a) && key_lt(b, c) ==> key_lt(a, c),
{
}

/// The parent position in the heap array.
pub open spec fn hparent(i: int) -> int {
    (i - 1) / 2
}

/// Position i is not before its parent in key order.
pub open spec fn ordered_at(h: Seq<u32>, keys: Seq<Key>, i: int) -> bool {
    !key_lt(keys[h[i] as int], keys[h[hparent(i)] as int])
}

/// The heap order: no entry before its parent.
pub open spec fn heap_order(h: Seq<u32>, keys: Seq<Key>) -> bool {
    forall|i: int| 0 < i < h.len() ==> #[trigger] ordered_at(h, keys, i)
}

/// The heap order but for the links of position x; the parent of x is not
/// after the children of x.
pub open spec fn order_around(h: Seq<u32>, keys: Seq<Key>, x: int) -> bool {
    &&& forall|i: int| 0 < i < h.len() && i != x && hparent(i) != x ==> #[trigger] ordered_at(h, keys, i)
    &&& forall|i: int|
        0 < i < h.len() && hparent(i) == x && x > 0 ==> !key_lt(keys[h[i] as int], keys[h[hparent(x)] as int])
}

/// The heap order but for the links of position x to its children.
pub open spec fn order_down(h: Seq<u32>, keys: Seq<Key>, x: int) -> bool {
    &&& order_around(h, keys, x)
    &&& x > 0 ==> ordered_at(h, keys, x)
}

/// Indexed binary min-heap of node indices: each node has at most one entry,
/// whose key can change in place; an entry can be removed by node.
pub struct IdxHeap {
    heap: Vec<u32>,
    /// pos[node] = place in heap, or NONE.
    pos: Vec<u32>,
}

impl IdxHeap {
    /// The heap array and the place table agree.
    pub closed spec fn wf(&self) -> bool {
        &&& self.pos@.len() < NONE
        &&& self.heap@.len() <= self.pos@.len()
        &&& forall|i: int| 0 <= i < self.heap@.len() ==> #[trigger] self.heap@[i] < self.pos@.len() && self.pos@[self.heap@[i] as int] == i
        &&& forall|u: int| 0 <= u < self.pos@.len() && #[trigger] self.pos@[u] != NONE ==> self.pos@[u] < self.heap@.len()
            && self.heap@[self.pos@[u] as int] == u
    }

    /// The entries in heap order.
    pub closed spec fn entries(&self) -> Seq<u32> {
        self.heap@
    }

    /// The nodes in the heap.
    pub closed spec fn elems(&self) -> Set<u32> {
        Set::new(|u: u32| (u as int) < self.pos@.len() && self.pos@[u as int] != NONE)
    }

    /// Number of nodes the heap can index.
    pub closed spec fn capacity(&self) -> nat {
        self.pos@.len()
    }

    /// Nodes hold the heap order for these keys.
    pub open spec fn ordered(&self, keys: Seq<Key>) -> bool {
        heap_order(self.entries(), keys)
    }

    /// A heap for nodes 0 .. n, empty.
    pub fn new(n: usize) -> (h: IdxHeap)
        requires
            n < NONE,
        ensures
            h.wf(),
            h.capacity() == n,
            h.elems() == Set::<u32>::empty(),
            h.entries().len() == 0,
    {
        let mut pos: Vec<u32> = Vec::new();
        let mut i: usize = 0;
        while i < n
            invariant
                i <= n,
                pos@.len() == i,
                forall|u: int| 0 <= u < i ==> #[trigger] pos@[u] == NONE,
            decreases n - i,
        {
            pos.push(NONE);
            i += 1;
        }
        let h = IdxHeap { heap: Vec::with_capacity(n), pos };
        proof {
            assert(h.elems() =~= Set::<u32>::empty());
        }
        h
    }

    /// Number of entries.
    pub fn len(&self) -> (r: usize)
        ensures
            r == self.entries().len(),
            self.wf() ==> self.elems().finite() && r == self.elems().len(),
    {
        proof {
            if self.wf() {
                self.lemma_count();
            }
        }
        self.heap.len()
    }

    /// The heap holds each of its nodes once: as many entries as nodes.
    pub proof fn lemma_count(&self)
        requires
            self.wf(),
        ensures
            self.elems().finite(),
            self.elems().len() == self.entries().len(),
    {
        let h = self.heap@;
        assert(h.no_duplicates()) by {
            assert forall|i: int, j: int| 0 <= i < h.len() && 0 <= j < h.len() && i != j implies h[i] != h[j] by {
                assert(self.pos@[h[i] as int] == i);
                assert(self.pos@[h[j] as int] == j);
            }
        }
        assert forall|u: u32| #[trigger] h.to_set().contains(u) <==> self.elems().contains(u) by {
            self.lemma_elems(u);
            if h.to_set().contains(u) {
                assert(h.contains(u));
            }
            if self.elems().contains(u) {
                let i = choose|i: int| 0 <= i < h.len() && h[i] == u;
                assert(h.contains(u));
            }
        }
        assert(h.to_set() =~= self.elems());
        h.unique_seq_to_set();
    }

    /// Exchanges the entries at places i and j, with their places.
    fn swap_at(&mut self, i: usize, j: usize)
        requires
            old(self).wf(),
            i < old(self).heap@.len(),
            j < old(self).heap@.len(),
        ensures
            final(self).wf(),
            final(self).heap@ == old(self).heap@.update(i as int, old(self).heap@[j as int]).update(
                j as int,
                old(self).heap@[i as int],
            ),
            final(self).elems() == old(self).elems(),
            final(self).pos@.len() == old(self).pos@.len(),
    {
        let a = self.heap[i];
        let b = self.heap[j];
        self.heap.set(i, b);
        self.heap.set(j, a);
        self.pos.set(b as usize, i as u32);
        self.pos.set(a as usize, j as u32);
        proof {
            assert(self.elems() =~= old(self).elems());
        }
    }

    /// Moves the entry at place i up while it is before its parent.
    fn sift_up(&mut self, i0: usize, keys: &Vec<Key>)
        requires
            old(self).wf(),
            i0 < old(self).heap@.len(),
            keys@.len() == old(self).pos@.len(),
            order_around(old(self).heap@, keys@, i0 as int),
        ensures
            final(self).wf(),
            final(self).elems() == old(self).elems(),
            final(self).heap@.len() == old(self).heap@.len(),
            final(self).pos@.len() == old(self).pos@.len(),
            final(self).pos@[old(self).heap@[i0 as int] as int] == i0 ==> final(self).heap@ == old(self).heap@
                && order_down(final(self).heap@, keys@, i0 as int),
            final(self).pos@[old(self).heap@[i0 as int] as int] != i0 ==> heap_order(final(self).heap@, keys@),
    {
        let v = self.heap[i0];
        let kv = keys[v as usize];
        let mut i = i0;
        let mut more = true;
        while more && i > 0
            invariant
                self.wf(),
                i <= i0,
                i < self.heap@.len(),
                self.heap@[i as int] == v,
                kv == keys@[v as int],
                keys@.len() == self.pos@.len(),
                self.elems() == old(self).elems(),
                self.heap@.len() == old(self).heap@.len(),
                self.pos@.len() == old(self).pos@.len(),
                order_around(self.heap@, keys@, i as int),
                i == i0 ==> self.heap@ == old(self).heap@,
                i != i0 ==> forall|c: int| 0 < c < self.heap@.len() && hparent(c) == i ==> #[trigger] ordered_at(self.heap@, keys@, c),
                !more ==> (i > 0 && ordered_at(self.heap@, keys@, i as int)),
            decreases i, if more { 1int } else { 0int },
        {
            let p = (i - 1) / 2;
            let hp = self.heap[p];
            if kv.lt(&keys[hp as usize]) {
                let ghost h0 = self.heap@;
                self.swap_at(i, p);
                proof {
                    let h1 = self.heap@;
                    assert(h1[p as int] == v);
                    assert forall|c: int| 0 < c < h1.len() && c != p && hparent(c) != p implies #[trigger] ordered_at(h1, keys@, c) by {
                        if c == i {
                            assert(h1[c] == hp);
                            lemma_key_order(keys@[hp as int], kv, keys@[hp as int]);
                        } else if hparent(c) == i {
                            assert(h1[hparent(c)] == hp);
                            assert(h1[c] == h0[c]);
                        } else {
                            assert(h1[c] == h0[c]);
                            assert(h1[hparent(c)] == h0[hparent(c)]);
                            assert(ordered_at(h0, keys@, c));
                        }
                    }
                    assert forall|c: int| 0 < c < h1.len() && hparent(c) == p && p > 0 implies !key_lt(keys@[h1[c] as int], keys@[h1[hparent(p as int)] as int]) by {
                        let gp = hparent(p as int);
                        assert(h1[gp] == h0[gp]);
                        assert(ordered_at(h0, keys@, p as int));
                        if c == i {
                            assert(h1[c] == hp);
                        } else {
                            assert(h1[c] == h0[c]);
                            assert(ordered_at(h0, keys@, c));
                            lemma_key_order(keys@[h0[c] as int], keys@[hp as int], keys@[h0[gp] as int]);
                        }
                    }
                    assert forall|c: int| 0 < c < h1.len() && hparent(c) == p implies #[trigger] ordered_at(h1, keys@, c) by {
                        if c == i {
                            assert(h1[c] == hp);
                            lemma_key_order(keys@[hp as int], kv, keys@[hp as int]);
                        } else {
                            assert(h1[c] == h0[c]);
                            assert(ordered_at(h0, keys@, c));
                            lemma_key_order(kv, keys@[hp as int], keys@[h0[c] as int]);
                        }
                    }
                }
                i = p;
            } else {
                more = false;
            }
        }
    }

    /// Moves the entry at place i down while a child is before it.
    fn sift_down(&mut self, i0: usize, keys: &Vec<Key>)
        requires
            old(self).wf(),
            i0 < old(self).heap@.len(),
            keys@.len() == old(self).pos@.len(),
            order_down(old(self).heap@, keys@, i0 as int),
        ensures
            final(self).wf(),
            final(self).elems() == old(self).elems(),
            final(self).heap@.len() == old(self).heap@.len(),
            final(self).pos@.len() == old(self).pos@.len(),
            heap_order(final(self).heap@, keys@),
    {
        let n = self.heap.len();
        let v = self.heap[i0];
        let kv = keys[v as usize];
        let mut i = i0;
        let mut more = true;
        while more
            invariant
                self.wf(),
                n == self.heap@.len(),
                n < NONE,
                i < n,
                self.heap@[i as int] == v,
                kv == keys@[v as int],
                keys@.len() == self.pos@.len(),
                self.elems() == old(self).elems(),
                self.heap@.len() == old(self).heap@.len(),
                self.pos@.len() == old(self).pos@.len(),
                order_down(self.heap@, keys@, i as int),
                !more ==> heap_order(self.heap@, keys@),
            decreases n - i, if more { 1int } else { 0int },
        {
            let l64: u64 = 2 * (i as u64) + 1;
            if l64 >= n as u64 {
                more = false;
                proof {
                    assert forall|c: int| 0 < c < n implies #[trigger] ordered_at(self.heap@, keys@, c) by {
                        if hparent(c) == i {
                            assert(c >= 2 * i + 1);
                        }
                    }
                }
            } else {
                let l = l64 as usize;
                let r = l + 1;
                let c = if r < n && keys[self.heap[r] as usize].lt(&keys[self.heap[l] as usize]) { r } else { l };
                let hc = self.heap[c];
                proof {
                    assert(hparent(l as int) == i);
                    assert(hparent(r as int) == i);
                    assert forall|s: int| 0 < s < n && hparent(s) == i implies s == l || s == r by {}
                }
                if keys[hc as usize].lt(&kv) {
                    let ghost h0 = self.heap@;
                    self.swap_at(i, c);
                    proof {
                        let h1 = self.heap@;
                        let other = if c == l { r as int } else { l as int };
                        assert(h1[c as int] == v);
                        assert(h1[i as int] == hc);
                        assert forall|s: int| 0 < s < n && s != c && hparent(s) != c implies #[trigger] ordered_at(h1, keys@, s) by {
                            if s == i {
                                assert(h1[hparent(s)] == h0[hparent(s)]);
                            } else if hparent(s) == i {
                                assert(s == other);
                                assert(h1[s] == h0[s]);
                                lemma_key_order(keys@[h0[l as int] as int], keys@[h0[r as int] as int], keys@[hc as int]);
                            } else {
                                assert(h1[s] == h0[s]);
                                assert(h1[hparent(s)] == h0[hparent(s)]);
                                assert(ordered_at(h0, keys@, s));
                            }
                        }
                        assert forall|s: int| 0 < s < n && hparent(s) == c && c > 0 implies !key_lt(keys@[h1[s] as int], keys@[h1[hparent(c as int)] as int]) by {
                            assert(h1[s] == h0[s]);
                            assert(ordered_at(h0, keys@, s));
                        }
                        assert(ordered_at(h1, keys@, c as int)) by {
                            lemma_key_order(keys@[hc as int], kv, keys@[hc as int]);
                        }
                        if i > 0 {
                            assert(ordered_at(h1, keys@, i as int)) by {
                                assert(h1[hparent(i as int)] == h0[hparent(i as int)]);
                            }
                        }
                    }
                    i = c;
                } else {
                    more = false;
                    proof {
                        let h = self.heap@;
                        assert forall|s: int| 0 < s < n implies #[trigger] ordered_at(h, keys@, s) by {
                            if hparent(s) == i {
                                lemma_key_order(keys@[h[l as int] as int], keys@[h[r as int] as int], kv);
                                lemma_key_order(keys@[h[s] as int], keys@[hc as int], kv);
                            }
                        }
                    }
                }
            }
        }
    }

    /// The place of node u in the heap array.
    pub closed spec fn place(&self, u: u32) -> int {
        self.pos@[u as int] as int
    }

    /// The heap order for these keys, but around node u when it is in the
    /// heap (its key may have changed).
    pub open spec fn ordered_except(&self, keys: Seq<Key>, u: u32) -> bool {
        if self.elems().contains(u) {
            order_around(self.entries(), keys, self.place(u))
        } else {
            heap_order(self.entries(), keys)
        }
    }

    /// Changing the key of one node keeps the order everywhere but around it.
    pub proof fn lemma_key_change(&self, old_keys: Seq<Key>, new_keys: Seq<Key>, u: u32)
        requires
            self.wf(),
            self.ordered(old_keys),
            old_keys.len() == self.capacity(),
            new_keys.len() == old_keys.len(),
            forall|v: int| 0 <= v < old_keys.len() && v != u ==> #[trigger] new_keys[v] == old_keys[v],
        ensures
            self.ordered_except(new_keys, u),
    {
        let h = self.heap@;
        if self.elems().contains(u) {
            let x = self.place(u);
            assert(h[x] == u);
            assert forall|i: int| 0 < i < h.len() && i != x && hparent(i) != x implies #[trigger] ordered_at(h, new_keys, i) by {
                assert(ordered_at(h, old_keys, i));
                assert(self.pos@[h[i] as int] == i);
                assert(self.pos@[h[hparent(i)] as int] == hparent(i));
            }
            assert forall|i: int|
                0 < i < h.len() && hparent(i) == x && x > 0 implies !key_lt(new_keys[h[i] as int], new_keys[h[hparent(x)] as int]) by {
                assert(ordered_at(h, old_keys, i));
                assert(ordered_at(h, old_keys, x));
                assert(self.pos@[h[i] as int] == i);
                assert(self.pos@[h[hparent(x)] as int] == hparent(x));
                lemma_key_order(old_keys[h[i] as int], old_keys[u as int], old_keys[h[hparent(x)] as int]);
            }
        } else {
            assert forall|i: int| 0 < i < h.len() implies #[trigger] ordered_at(h, new_keys, i) by {
                assert(ordered_at(h, old_keys, i));
                assert(h[i] < self.pos@.len());
                assert(self.pos@[h[i] as int] == i);
                assert(h[i] != u);
                assert(self.pos@[h[hparent(i)] as int] == hparent(i));
                assert(h[hparent(i)] != u);
            }
        }
    }

    /// The entry at the top is not after any other.
    pub proof fn lemma_top_min(&self, keys: Seq<Key>, i: int)
        requires
            self.wf(),
            self.ordered(keys),
            0 <= i < self.entries().len(),
        ensures
            !key_lt(keys[self.entries()[i] as int], keys[self.entries()[0] as int]),
        decreases i,
    {
        let h = self.heap@;
        if i > 0 {
            self.lemma_top_min(keys, hparent(i));
            assert(ordered_at(h, keys, i));
            lemma_key_order(keys[h[i] as int], keys[h[hparent(i)] as int], keys[h[0] as int]);
        }
    }

    /// A node is in the heap exactly when some entry holds it.
    proof fn lemma_elems(&self, u: u32)
        requires
            self.wf(),
        ensures
            self.elems().contains(u) <==> exists|i: int| 0 <= i < self.heap@.len() && self.heap@[i] == u,
    {
        if exists|i: int| 0 <= i < self.heap@.len() && self.heap@[i] == u {
            let i = choose|i: int| 0 <= i < self.heap@.len() && self.heap@[i] == u;
            assert(self.pos@[u as int] == i);
        }
        if self.elems().contains(u) {
            assert(self.heap@[self.pos@[u as int] as int] == u);
        }
    }

    /// With u not in it, the heap has room for one more entry.
    proof fn lemma_room(&self, u: u32)
        requires
            self.wf(),
            (u as int) < self.pos@.len(),
            self.pos@[u as int] == NONE,
        ensures
            self.heap@.len() < self.pos@.len(),
    {
        let h = self.heap@;
        let mapped = h.map_values(|x: u32| x as int);
        assert(mapped.no_duplicates()) by {
            assert forall|i: int, j: int| 0 <= i < mapped.len() && 0 <= j < mapped.len() && i != j implies mapped[i]
                != mapped[j] by {
                assert(self.pos@[h[i] as int] == i);
                assert(self.pos@[h[j] as int] == j);
            }
        }
        mapped.unique_seq_to_set();
        let room = vstd::set_lib::set_int_range(0, self.pos@.len() as int).remove(u as int);
        vstd::set_lib::lemma_int_range(0, self.pos@.len() as int);
        assert(mapped.to_set().subset_of(room)) by {
            assert forall|v: int| #[trigger] mapped.to_set().contains(v) implies room.contains(v) by {
                let i = choose|i: int| 0 <= i < mapped.len() && mapped[i] == v;
                assert(h[i] < self.pos@.len());
                assert(self.pos@[h[i] as int] == i);
            }
        }
        vstd::set_lib::lemma_len_subset(mapped.to_set(), room);
    }

    /// Inserts node u, or puts it back in order after its key changed.
    pub fn upsert(&mut self, u: u32, keys: &Vec<Key>)
        requires
            old(self).wf(),
            u < old(self).capacity(),
            keys@.len() == old(self).capacity(),
            old(self).ordered_except(keys@, u),
        ensures
            final(self).wf(),
            final(self).capacity() == old(self).capacity(),
            final(self).elems() == old(self).elems().insert(u),
            final(self).ordered(keys@),
    {
        let p = self.pos[u as usize];
        if p == NONE {
            proof {
                self.lemma_room(u);
            }
            let ghost h0 = self.heap@;
            self.heap.push(u);
            let i = self.heap.len() - 1;
            self.pos.set(u as usize, i as u32);
            proof {
                let h = self.heap@;
                assert forall|k: int| 0 <= k < h.len() implies #[trigger] h[k] < self.pos@.len() && self.pos@[h[k] as int] == k by {
                    if k < i {
                        assert(h[k] == h0[k]);
                        assert(h0[k] != u) by {
                            assert(old(self).pos@[h0[k] as int] == k);
                        }
                    }
                }
                assert(self.elems() =~= old(self).elems().insert(u));
                assert forall|c: int| 0 < c < h.len() && c != i && hparent(c) != i implies #[trigger] ordered_at(h, keys@, c) by {
                    assert(ordered_at(h0, keys@, c));
                }
            }
            self.sift_up(i, keys);
            proof {
                let h = self.heap@;
                assert forall|c: int| 0 < c < h.len() implies #[trigger] ordered_at(h, keys@, c) by {
                    if self.pos@[u as int] == i {
                        assert(hparent(c) < i);
                    }
                }
            }
        } else {
            let i = p as usize;
            proof {
                assert(self.elems().contains(u));
            }
            self.sift_up(i, keys);
            let i2 = self.pos[u as usize] as usize;
            if i2 == i {
                self.sift_down(i, keys);
            }
            proof {
                assert(self.elems() =~= old(self).elems().insert(u));
            }
        }
    }

    /// Removes node u, if it is in the heap; its key may have changed since
    /// the heap was last in order.
    pub fn remove(&mut self, u: u32, keys: &Vec<Key>)
        requires
            old(self).wf(),
            u < old(self).capacity(),
            keys@.len() == old(self).capacity(),
            old(self).ordered_except(keys@, u),
        ensures
            final(self).wf(),
            final(self).capacity() == old(self).capacity(),
            final(self).elems() == old(self).elems().remove(u),
            final(self).ordered(keys@),
    {
        let p = self.pos[u as usize];
        if p == NONE {
            proof {
                assert(self.elems() =~= old(self).elems().remove(u));
            }
            return;
        }
        let i = p as usize;
        let ghost h0 = self.heap@;
        self.pos.set(u as usize, NONE);
        let last = self.heap.pop().unwrap();
        if i < self.heap.len() {
            self.heap.set(i, last);
            self.pos.set(last as usize, i as u32);
            proof {
                let h = self.heap@;
                let n = h0.len() - 1;
                assert(last == h0[n]);
                assert(old(self).pos@[last as int] == n);
                assert forall|k: int| 0 <= k < h.len() implies #[trigger] h[k] < self.pos@.len() && self.pos@[h[k] as int] == k by {
                    if k != i {
                        assert(h[k] == h0[k]);
                        assert(old(self).pos@[h0[k] as int] == k);
                        assert(h0[k] != u && h0[k] != last);
                    }
                }
                assert forall|v: int| 0 <= v < self.pos@.len() && #[trigger] self.pos@[v] != NONE implies self.pos@[v] < h.len()
                    && h[self.pos@[v] as int] == v by {
                    if v != u && v != last {
                        assert(old(self).pos@[v] != NONE);
                        assert(h0[old(self).pos@[v] as int] == v);
                    }
                }
                assert(self.elems() =~= old(self).elems().remove(u));
                assert(old(self).elems().contains(u));
                assert(old(self).place(u) == i);
                assert forall|c: int| 0 < c < h.len() && c != i && hparent(c) != i implies #[trigger] ordered_at(h, keys@, c) by {
                    assert(ordered_at(h0, keys@, c));
                    assert(h[c] == h0[c]);
                    assert(h[hparent(c)] == h0[hparent(c)]);
                }
                assert forall|c: int| 0 < c < h.len() && hparent(c) == i && i > 0 implies !key_lt(keys@[h[c] as int], keys@[h[hparent(i as int)] as int]) by {
                    assert(h[c] == h0[c]);
                    assert(h[hparent(i as int)] == h0[hparent(i as int)]);
                }
            }
            self.sift_up(i, keys);
            let i2 = self.pos[last as usize] as usize;
            if i2 == i {
                self.sift_down(i, keys);
            }
        } else {
            proof {
                let h = self.heap@;
                assert(h =~= h0.subrange(0, h0.len() - 1));
                assert(self.elems() =~= old(self).elems().remove(u));
                assert(old(self).elems().contains(u));
                assert forall|c: int| 0 < c < h.len() implies #[trigger] ordered_at(h, keys@, c) by {
                    assert(ordered_at(h0, keys@, c));
                }
            }
        }
    }

    /// Takes out the node with the smallest key. None: the heap is empty.
    pub fn pop_min(&mut self, keys: &Vec<Key>) -> (r: Option<u32>)
        requires
            old(self).wf(),
            keys@.len() == old(self).capacity(),
            old(self).ordered(keys@),
        ensures
            final(self).wf(),
            final(self).capacity() == old(self).capacity(),
            final(self).ordered(keys@),
            r is None <==> old(self).elems() == Set::<u32>::empty(),
            r is None ==> final(self).elems() == old(self).elems(),
            r matches Some(t) ==> {
                &&& old(self).elems().contains(t)
                &&& forall|v: u32| #[trigger] old(self).elems().contains(v) ==> !key_lt(keys@[v as int], keys@[t as int])
                &&& final(self).elems() == old(self).elems().remove(t)
            },
    {
        if self.heap.len() == 0 {
            proof {
                assert forall|v: u32| !self.elems().contains(v) by {
                    self.lemma_elems(v);
                }
                assert(self.elems() =~= Set::<u32>::empty());
            }
            return None;
        }
        let top = self.heap[0];
        proof {
            assert(self.pos@[top as int] == 0);
            assert(self.elems().contains(top));
            assert forall|v: u32| #[trigger] self.elems().contains(v) implies !key_lt(keys@[v as int], keys@[top as int]) by {
                let i = self.pos@[v as int] as int;
                self.lemma_top_min(keys@, i);
            }
        }
        self.remove(top, keys);
        Some(top)
    }

} // impl IdxHeap


/// Child c of u lies deeper than u.
pub open spec fn goes_down(tr: Tree, u: int, c: int) -> bool {
    0 <= c < tr.size() && tr.dep@[u] < tr.dep@[c]
}

/// Every branching has two children, both deeper than it.
pub open spec fn descending(tr: Tree) -> bool {
    forall|v: int|
        0 <= v < tr.size() && #[trigger] tr.ch0@[v] != NONE ==> tr.ch1@[v] != NONE && goes_down(tr, v, tr.ch0@[v] as int)
            && goes_down(tr, v, tr.ch1@[v] as int)
}

/// A consistent tree descends.
pub proof fn lemma_tree_descending(tr: Tree, root: int, depth: int)
    requires
        tree_ok(tr, root, depth),
    ensures
        descending(tr),
{
    assert forall|v: int| 0 <= v < tr.size() && #[trigger] tr.ch0@[v] != NONE implies tr.ch1@[v] != NONE && goes_down(
        tr,
        v,
        tr.ch0@[v] as int,
    ) && goes_down(tr, v, tr.ch1@[v] as int) by {
        assert(node_ok(tr, v, depth));
    }
}

/// Strictly below u lie only deeper nodes.
proof fn lemma_strictly_deeper(tr: Tree, u: int, w: int)
    requires
        strictly_under(tr, u, w),
    ensures
        tr.dep@[u] < tr.dep@[w],
{
    let a = tr.ch0@[u] as int;
    let b = tr.ch1@[u] as int;
    if goes_down(tr, u, a) && in_tree_below(tr, a, w) {
        lemma_below_deeper(tr, a, w);
    } else {
        lemma_below_deeper(tr, b, w);
    }
}

/// w is u or lies below it in the tree.
pub open spec fn in_tree_below(tr: Tree, u: int, w: int) -> bool
    decreases 256 - tr.dep@[u],
{
    if u == w {
        true
    } else if 0 <= u < tr.size() && tr.ch0@[u] != NONE {
        let a = tr.ch0@[u] as int;
        let b = tr.ch1@[u] as int;
        (goes_down(tr, u, a) && in_tree_below(tr, a, w)) || (goes_down(tr, u, b) && in_tree_below(tr, b, w))
    } else {
        false
    }
}

/// w lies strictly below u.
pub open spec fn strictly_under(tr: Tree, u: int, w: int) -> bool {
    &&& 0 <= u < tr.size()
    &&& tr.ch0@[u] != NONE
    &&& ({
        let a = tr.ch0@[u] as int;
        let b = tr.ch1@[u] as int;
        (goes_down(tr, u, a) && in_tree_below(tr, a, w)) || (goes_down(tr, u, b) && in_tree_below(tr, b, w))
    })
}

/// Steps of a walk over the subtree of u.
pub open spec fn tree_work(tr: Tree, u: int) -> nat
    decreases 256 - tr.dep@[u],
{
    if 0 <= u < tr.size() && tr.ch0@[u] != NONE {
        let a = tr.ch0@[u] as int;
        let b = tr.ch1@[u] as int;
        1 + (if goes_down(tr, u, a) {
            tree_work(tr, a)
        } else {
            0
        }) + (if goes_down(tr, u, b) {
            tree_work(tr, b)
        } else {
            0
        })
    } else {
        1
    }
}

/// Steps left to a stack of walks.
pub open spec fn tree_stack_work(tr: Tree, st: Seq<u32>) -> nat
    decreases st.len(),
{
    if st.len() == 0 {
        0
    } else {
        tree_work(tr, st.last() as int) + tree_stack_work(tr, st.drop_last())
    }
}

/// Below u lie only nodes at least as deep as u.
proof fn lemma_below_deeper(tr: Tree, u: int, w: int)
    requires
        in_tree_below(tr, u, w),
    ensures
        tr.dep@[u] <= tr.dep@[w],
    decreases 256 - tr.dep@[u],
{
    if u != w {
        let a = tr.ch0@[u] as int;
        let b = tr.ch1@[u] as int;
        if goes_down(tr, u, a) && in_tree_below(tr, a, w) {
            lemma_below_deeper(tr, a, w);
        } else {
            lemma_below_deeper(tr, b, w);
        }
    }
}

/// Below a node below u lies only what is below u.
proof fn lemma_below_trans(tr: Tree, u: int, v: int, w: int)
    requires
        in_tree_below(tr, u, v),
        in_tree_below(tr, v, w),
    ensures
        in_tree_below(tr, u, w),
    decreases 256 - tr.dep@[u],
{
    if u != v {
        let a = tr.ch0@[u] as int;
        let b = tr.ch1@[u] as int;
        if goes_down(tr, u, a) && in_tree_below(tr, a, v) {
            lemma_below_trans(tr, a, v, w);
        } else {
            lemma_below_trans(tr, b, v, w);
        }
    }
}

/// The key of a node taken out of the pruning: the largest ratio.
pub open spec fn dead_key(tr: Tree, w: int, dead: u64) -> Key {
    Key { alpha: dead, fo: tr.fo@[w], dep: tr.dep@[w], idx: w as u32 }
}

/// Takes the nodes strictly below u out of the pruning, after u became a
/// leaf: they leave the heap, count no leaves, and get the key of the
/// largest ratio (`dead`).
#[verifier::rlimit(100)]
pub fn kill_below(heap: &mut IdxHeap, keys: &mut Vec<Key>, leaves: &mut Vec<u64>, tr: &Tree, u: u32, dead: u64)
    requires
        old(heap).wf(),
        old(heap).ordered(old(keys)@),
        tr.same_len(),
        old(keys)@.len() == old(heap).capacity(),
        old(keys)@.len() == tr.size(),
        old(leaves)@.len() == tr.size(),
        u < tr.size(),
        descending(*tr),
    ensures
        final(heap).wf(),
        final(heap).capacity() == old(heap).capacity(),
        final(heap).ordered(final(keys)@),
        final(keys)@.len() == old(keys)@.len(),
        final(leaves)@.len() == old(leaves)@.len(),
        forall|v: u32| #[trigger] final(heap).elems().contains(v) <==> old(heap).elems().contains(v) && !strictly_under(*tr, u as int, v as int),
        forall|w: int|
            0 <= w < tr.size() ==> #[trigger] final(keys)@[w] == if strictly_under(*tr, u as int, w) {
                dead_key(*tr, w, dead)
            } else {
                old(keys)@[w]
            },
        forall|w: int|
            0 <= w < tr.size() ==> #[trigger] final(leaves)@[w] == if strictly_under(*tr, u as int, w) {
                0
            } else {
                old(leaves)@[w]
            },
{
    let ghost ui = u as int;
    let ghost mut killed: Set<int> = Set::empty();
    let mut st: Vec<u32> = Vec::new();
    st.push(u);
    proof {
        assert(st@[0] == u);
        assert(in_tree_below(*tr, ui, ui));
    }
    while st.len() > 0
        invariant
            tr.same_len(),
            descending(*tr),
            u < tr.size(),
            ui == u as int,
            heap.wf(),
            heap.capacity() == old(heap).capacity(),
            keys@.len() == old(keys)@.len(),
            leaves@.len() == old(leaves)@.len(),
            leaves@.len() == tr.size(),
            keys@.len() == heap.capacity(),
            keys@.len() == tr.size(),
            heap.ordered(keys@),
            forall|k: int| 0 <= k < st@.len() ==> #[trigger] st@[k] < tr.size() && in_tree_below(*tr, ui, st@[k] as int),
            forall|w: int| #[trigger] killed.contains(w) ==> strictly_under(*tr, ui, w),
            forall|v: u32| #[trigger] heap.elems().contains(v) <==> old(heap).elems().contains(v) && !killed.contains(v as int),
            forall|w: int|
                0 <= w < tr.size() ==> #[trigger] keys@[w] == if killed.contains(w) {
                    dead_key(*tr, w, dead)
                } else {
                    old(keys)@[w]
                },
            forall|w: int|
                0 <= w < tr.size() ==> #[trigger] leaves@[w] == if killed.contains(w) {
                    0
                } else {
                    old(leaves)@[w]
                },
            forall|w: int|
                0 <= w < tr.size() && #[trigger] strictly_under(*tr, ui, w) ==> killed.contains(w) || exists|k: int|
                    0 <= k < st@.len() && in_tree_below(*tr, st@[k] as int, w),
        decreases tree_stack_work(*tr, st@),
    {
        let ghost st0 = st@;
        let w = st.pop().unwrap();
        let ghost rest = st@;
        proof {
            assert(rest == st0.drop_last());
            assert(w == st0.last());
            assert(st0[st0.len() - 1] == w);
            reveal_with_fuel(tree_stack_work, 2);
        }
        let wi = w as usize;
        let ghost killed0 = killed;
        if w != u {
            proof {
                assert(in_tree_below(*tr, ui, w as int));
                assert(strictly_under(*tr, ui, w as int));
                heap.lemma_key_change(keys@, keys@, w);
            }
            heap.remove(w, keys);
            let ghost k0 = keys@;
            let nk = Key { alpha: dead, fo: tr.fo[wi], dep: tr.dep[wi], idx: w };
            keys.set(wi, nk);
            proof {
                heap.lemma_key_change(k0, keys@, w);
                assert(!heap.elems().contains(w));
            }
            leaves.set(wi, 0);
            proof {
                killed = killed.insert(w as int);
            }
        }
        let a = tr.ch0[wi];
        let ghost st1 = st@;
        if a != NONE {
            let b = tr.ch1[wi];
            st.push(a);
            st.push(b);
        }
        proof {
            let t = *tr;
            let wn = w as int;
            reveal_with_fuel(tree_stack_work, 3);
            assert(in_tree_below(t, ui, wn));
            lemma_below_deeper(t, ui, wn);
            if a != NONE {
                let aa = a as int;
                let bb = t.ch1@[wn] as int;
                assert(goes_down(t, wn, aa) && goes_down(t, wn, bb));
                assert(in_tree_below(t, aa, aa));
                assert(in_tree_below(t, bb, bb));
                assert(in_tree_below(t, wn, aa));
                assert(in_tree_below(t, wn, bb));
                lemma_below_trans(t, ui, wn, aa);
                lemma_below_trans(t, ui, wn, bb);
                assert(st@ =~= rest.push(a).push(bb as u32));
                assert(st@.drop_last() =~= rest.push(a));
                assert(rest.push(a).drop_last() =~= rest);
                assert(tree_work(t, wn) == 1 + tree_work(t, aa) + tree_work(t, bb));
            } else {
                assert(st@ =~= rest);
            }
            assert forall|k: int| 0 <= k < st@.len() implies #[trigger] st@[k] < t.size() && in_tree_below(t, ui, st@[k] as int) by {
                if k < rest.len() {
                    assert(st@[k] == st0[k]);
                }
            }
            assert forall|x: int| 0 <= x < t.size() && #[trigger] strictly_under(t, ui, x) implies killed.contains(x) || exists|k: int|
                0 <= k < st@.len() && in_tree_below(t, st@[k] as int, x) by {
                if !killed.contains(x) {
                    assert(!killed0.contains(x));
                    let k = choose|k: int| 0 <= k < st0.len() && in_tree_below(t, st0[k] as int, x);
                    if k < rest.len() {
                        assert(st@[k] == st0[k]);
                    } else {
                        assert(st0[k] == w);
                        lemma_strictly_deeper(t, ui, x);
                        if x == wn {
                            assert(wn != ui);
                            assert(killed.contains(x));
                        } else {
                            assert(a != NONE);
                            let aa = a as int;
                            let bb = t.ch1@[wn] as int;
                            if in_tree_below(t, aa, x) {
                                assert(st@[st@.len() - 2] == a);
                            } else {
                                assert(in_tree_below(t, bb, x));
                                assert(st@[st@.len() - 1] == bb as u32);
                            }
                        }
                    }
                }
            }
        }
    }
    proof {
        let t = *tr;
        assert forall|x: int| 0 <= x < t.size() implies (#[trigger] strictly_under(t, ui, x) <==> killed.contains(x)) by {
            if strictly_under(t, ui, x) && !killed.contains(x) {
                let k = choose|k: int| 0 <= k < st@.len() && in_tree_below(t, st@[k] as int, x);
            }
        }
        assert forall|v: u32| #[trigger] heap.elems().contains(v) <==> old(heap).elems().contains(v) && !strictly_under(t, ui, v as int) by {
            if (v as int) < t.size() {
            } else {
                if killed.contains(v as int) {
                    assert(strictly_under(t, ui, v as int));
                }
                if strictly_under(t, ui, v as int) {
                    lemma_strictly_deeper(t, ui, v as int);
                }
            }
        }
    }
}

} // verus!
