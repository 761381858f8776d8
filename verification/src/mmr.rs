//! The append-only Merkle Mountain Range accumulator.
//!
//! The accumulator stores one node per position.  Leaves enter at the next
//! free position; whenever two perfect subtrees of equal height stand side by
//! side their merged parent is appended right after.  The peaks (roots of the
//! maximal perfect subtrees) are folded right to left into a single root.
//!
//! Every observable value — the root, a membership proof, the verdict of
//! proof verification — is specified as a function of the pushed leaf
//! sequence alone.

use vstd::arithmetic::div_mod::{
    lemma_basic_div, lemma_div_denominator, lemma_div_multiples_vanish_fancy,
    lemma_mod_multiples_vanish,
};
use vstd::pervasive::arbitrary;
use vstd::prelude::*;

use crate::encoding::{bytes_eq, copy_bytes, leaf_bytes_spec, push_bytes};
use crate::hashing::{blake2_256, blake2_of};
use crate::traits::Hashable;
use crate::types::{LeafData, LeafV};
use crate::utils::{
    hi_pow2, is_pow2, leaf_index_to_pos, leaf_pos_spec, lemma_hi_pow2, lemma_hi_pow2_unique,
    lemma_is_pow2_pos, lemma_mmr_size_ge, lemma_mmr_size_mono, lemma_mmr_size_succ,
    mmr_size_from_number_of_leaves, mmr_size_spec, t_ones, MAX_LEAVES,
};

verus! {

/// Mathematical model of a node: a leaf datum or an opaque digest.
pub enum NodeV {
    Data(LeafV),
    Hash(Seq<u8>),
}

/// A node of the accumulator: either a leaf datum, or the digest of a merge.
/// Digests are never re-interpreted as leaf data.
pub enum MMRNode {
    Data(LeafData),
    Hash(Vec<u8>),
}

impl View for MMRNode {
    type V = NodeV;

    open spec fn view(&self) -> NodeV {
        match self {
            MMRNode::Data(l) => NodeV::Data(l@),
            MMRNode::Hash(d) => NodeV::Hash(d@),
        }
    }
}

/// The digest a node answers with: a leaf hashes its payload, a digest is
/// its own answer.
pub open spec fn node_digest(n: NodeV) -> Seq<u8> {
    match n {
        NodeV::Data(l) => blake2_of(leaf_bytes_spec(l)),
        NodeV::Hash(d) => d,
    }
}

/// The merge rule: hash of the left digest followed by the right digest.
/// Left/right order is significant.
pub open spec fn merge_spec(left: NodeV, right: NodeV) -> NodeV {
    NodeV::Hash(blake2_of(node_digest(left) + node_digest(right)))
}

impl MMRNode {
    /// The digest of this node.
    pub fn hash(&self) -> (r: Vec<u8>)
        ensures
            r@ == node_digest(self@),
    {
        match self {
            MMRNode::Data(l) => Hashable::hash(l),
            MMRNode::Hash(d) => copy_bytes(d),
        }
    }

    /// Structural copy with a known result.
    pub fn duplicate(&self) -> (r: MMRNode)
        ensures
            r@ == self@,
    {
        match self {
            MMRNode::Data(l) => MMRNode::Data(l.duplicate()),
            MMRNode::Hash(d) => MMRNode::Hash(copy_bytes(d)),
        }
    }

    /// Node equality: same variant, same contents.  Root comparisons must use
    /// this (not digest equality) so that a one-leaf accumulator whose root
    /// is still a leaf datum is never conflated with its digest.
    pub fn eq_node(&self, other: &MMRNode) -> (r: bool)
        ensures
            r == (self@ == other@),
    {
        match (self, other) {
            (MMRNode::Data(a), MMRNode::Data(b)) => {
                let r = a.block_number == b.block_number && bytes_eq(&a.block_hash, &b.block_hash)
                    && bytes_eq(&a.para_heads_root, &b.para_heads_root);
                proof {
                    if r {
                        assert(a@ == b@);
                    }
                }
                r
            },
            (MMRNode::Hash(a), MMRNode::Hash(b)) => bytes_eq(a, b),
            _ => false,
        }
    }
}

/// The merge strategy of the accumulator: how two sibling nodes combine.
pub struct MergeStrategy;

impl MergeStrategy {
    /// Merges two sibling nodes into their parent.
    pub fn merge(left: &MMRNode, right: &MMRNode) -> (r: MMRNode)
        ensures
            r@ == merge_spec(left@, right@),
    {
        let mut combined = left.hash();
        let right_digest = right.hash();
        push_bytes(&mut combined, &right_digest);
        MMRNode::Hash(blake2_256(&combined))
    }
}

/// `2^k`.
pub open spec fn p2(k: nat) -> nat
    decreases k,
{
    if k == 0 {
        1
    } else {
        2 * p2((k - 1) as nat)
    }
}

/// The exponent of a power of two.
pub open spec fn lg(p: int) -> nat
    decreases p,
{
    if p <= 1 {
        0
    } else {
        1 + lg(p / 2)
    }
}

/// Root node of the perfect subtree over `leaves[a .. a + sz)`, `sz` a power
/// of two.
pub open spec fn subtree(leaves: Seq<LeafV>, a: int, sz: int) -> NodeV
    decreases sz,
{
    if sz <= 1 {
        NodeV::Data(leaves[a])
    } else {
        merge_spec(subtree(leaves, a, sz / 2), subtree(leaves, a + sz / 2, sz / 2))
    }
}

/// The peak spans `(start, size)` of an accumulator over `n` leaves starting
/// at leaf offset `a`: repeatedly split off the largest power of two.
pub open spec fn peaks_from(n: int, a: int) -> Seq<(int, int)>
    decreases n,
{
    if n <= 0 {
        Seq::empty()
    } else {
        let p = hi_pow2(n as nat) as int;
        if 1 <= p <= n {
            seq![(a, p)] + peaks_from(n - p, a + p)
        } else {
            Seq::empty()
        }
    }
}

/// The spans partition `[a, a + n)` into power-of-two blocks.
pub open spec fn spans_wf(spans: Seq<(int, int)>, a: int, n: int) -> bool
    decreases spans.len(),
{
    if spans.len() == 0 {
        n == 0
    } else {
        &&& spans[0].0 == a
        &&& is_pow2(spans[0].1 as nat)
        &&& 1 <= spans[0].1 <= n
        &&& spans_wf(spans.drop_first(), a + spans[0].1, n - spans[0].1)
    }
}

pub proof fn lemma_peaks_from_wf(n: int, a: int)
    requires
        n >= 0,
    ensures
        spans_wf(peaks_from(n, a), a, n),
    decreases n,
{
    if n > 0 {
        lemma_hi_pow2(n as nat);
        let p = hi_pow2(n as nat) as int;
        lemma_peaks_from_wf(n - p, a + p);
        assert(peaks_from(n, a).drop_first() =~= peaks_from(n - p, a + p));
    }
}

/// Which peak holds leaf index `i`.
pub open spec fn peak_of_leaf(spans: Seq<(int, int)>, i: int) -> int
    decreases spans.len(),
{
    if spans.len() == 0 {
        0
    } else if i < spans[0].0 + spans[0].1 {
        0
    } else {
        1 + peak_of_leaf(spans.drop_first(), i)
    }
}

pub proof fn lemma_peak_of_leaf(spans: Seq<(int, int)>, a: int, n: int, i: int)
    requires
        spans_wf(spans, a, n),
        a <= i < a + n,
    ensures
        0 <= peak_of_leaf(spans, i) < spans.len(),
        ({
            let k = peak_of_leaf(spans, i);
            spans[k].0 <= i < spans[k].0 + spans[k].1
        }),
    decreases spans.len(),
{
    if spans.len() > 0 && i >= spans[0].0 + spans[0].1 {
        lemma_peak_of_leaf(spans.drop_first(), a + spans[0].1, n - spans[0].1, i);
    }
}

/// Folding the peaks right to left: the root is
/// `merge(p1, merge(p2, ... merge(p_{m-1}, p_m)))`.
pub open spec fn bag(nodes: Seq<NodeV>) -> NodeV
    decreases nodes.len(),
{
    if nodes.len() <= 1 {
        nodes[0]
    } else {
        merge_spec(nodes[0], bag(nodes.drop_first()))
    }
}

/// The peak nodes of an accumulator over `leaves`.
pub open spec fn peak_nodes_of(leaves: Seq<LeafV>) -> Seq<NodeV> {
    peaks_from(leaves.len() as int, 0).map_values(|sp: (int, int)| subtree(leaves, sp.0, sp.1))
}

/// The root of a non-empty accumulator, as a function of its leaves.  For a
/// single leaf this is that leaf datum itself.
pub open spec fn root_spec(leaves: Seq<LeafV>) -> NodeV {
    bag(peak_nodes_of(leaves))
}

/// Recomputing a peak root from a claimed leaf and the sibling nodes along
/// its path, bottom up.  At each level the low bit of the relative index
/// says on which side the sibling stands.
pub open spec fn climb(node: NodeV, ir: int, items: Seq<NodeV>) -> NodeV
    decreases items.len(),
{
    if items.len() == 0 {
        node
    } else {
        let next = if ir % 2 == 1 {
            merge_spec(items[0], node)
        } else {
            merge_spec(node, items[0])
        };
        climb(next, ir / 2, items.drop_first())
    }
}

/// The sibling nodes along the path of relative leaf `ir` inside the perfect
/// subtree over `leaves[a .. a + sz)`, ordered bottom up.
pub open spec fn path(leaves: Seq<LeafV>, a: int, sz: int, ir: int) -> Seq<NodeV>
    decreases sz,
{
    if sz <= 1 {
        Seq::empty()
    } else {
        let half = sz / 2;
        if ir < half {
            path(leaves, a, half, ir) + seq![subtree(leaves, a + half, half)]
        } else {
            path(leaves, a + half, half, ir - half) + seq![subtree(leaves, a, half)]
        }
    }
}

/// Consuming proof items one by one: `acc = merge(item, acc)`.
pub open spec fn fold_merge(acc: NodeV, items: Seq<NodeV>) -> NodeV
    decreases items.len(),
{
    if items.len() == 0 {
        acc
    } else {
        fold_merge(merge_spec(items[0], acc), items.drop_first())
    }
}

/// Combining the recomputed peak `k` of `m` with the remaining proof items:
/// first the peaks right of `k` (given rightmost first), then the peaks left
/// of `k` (given nearest first).
pub open spec fn bag_with(peak: NodeV, k: int, m: int, rest: Seq<NodeV>) -> NodeV {
    let rights = rest.take(m - 1 - k);
    let lefts = rest.skip(m - 1 - k);
    let acc0 = if k == m - 1 {
        peak
    } else {
        merge_spec(peak, fold_merge(rights[0], rights.drop_first()))
    };
    fold_merge(acc0, lefts)
}

/// The leaf count whose accumulator occupies exactly `size` positions, found
/// by search from `k` upward.
pub open spec fn n_of_size_rec(size: int, k: int) -> Option<int>
    decreases size - k,
    via n_of_size_rec_dec
{
    if k < 0 || k > size {
        None
    } else if mmr_size_spec(k as nat) == size {
        Some(k)
    } else if mmr_size_spec(k as nat) > size {
        None
    } else {
        n_of_size_rec(size, k + 1)
    }
}

#[via_fn]
proof fn n_of_size_rec_dec(size: int, k: int) {
    if 0 <= k <= size && mmr_size_spec(k as nat) < size {
        lemma_mmr_size_ge(k as nat);
    }
}

/// The leaf count matching an accumulator size, if any.
pub open spec fn n_of_size(size: int) -> Option<int> {
    n_of_size_rec(size, 0)
}

/// The leaf index sitting at position `pos` in an accumulator of `n` leaves,
/// found by search from `k` upward.
pub open spec fn i_of_pos_rec(pos: int, n: int, k: int) -> Option<int>
    decreases n - k,
{
    if k < 0 || k >= n {
        None
    } else if leaf_pos_spec(k as nat) == pos {
        Some(k)
    } else if leaf_pos_spec(k as nat) > pos {
        None
    } else {
        i_of_pos_rec(pos, n, k + 1)
    }
}

/// The leaf index at position `pos`, if `pos` is a leaf position.
pub open spec fn i_of_pos(pos: int, n: int) -> Option<int> {
    i_of_pos_rec(pos, n, 0)
}

/// What proof verification computes: the claimed node is climbed to its peak
/// with the path items, the peaks are folded with the remaining items, and
/// the outcome must equal the root — by node equality, never a looser match.
pub open spec fn verify_spec(
    root: NodeV,
    size: int,
    items: Seq<NodeV>,
    pos: int,
    node: NodeV,
) -> bool {
    match n_of_size(size) {
        None => false,
        Some(n) => match i_of_pos(pos, n) {
            None => false,
            Some(i) => {
                let spans = peaks_from(n, 0);
                let m = spans.len() as int;
                let k = peak_of_leaf(spans, i);
                let a = spans[k].0;
                let p = spans[k].1;
                let h = lg(p) as int;
                if items.len() != h + m - 1 {
                    false
                } else {
                    let peak = climb(node, i - a, items.take(h));
                    bag_with(peak, k, m, items.skip(h)) == root
                }
            },
        },
    }
}

/// The canonical proof for leaf `i`: its in-peak path bottom up, then the
/// peaks right of its own from rightmost inward, then the peaks left of its
/// own from nearest leftward.
pub open spec fn proof_items_spec(leaves: Seq<LeafV>, i: int) -> Seq<NodeV> {
    let n = leaves.len() as int;
    let spans = peaks_from(n, 0);
    let m = spans.len() as int;
    let k = peak_of_leaf(spans, i);
    let a = spans[k].0;
    let p = spans[k].1;
    let rights = Seq::new((m - 1 - k) as nat, |x: int| subtree(leaves, spans[m - 1 - x].0, spans[m - 1 - x].1));
    let lefts = Seq::new(k as nat, |x: int| subtree(leaves, spans[k - 1 - x].0, spans[k - 1 - x].1));
    path(leaves, a, p, i - a) + rights + lefts
}

/// `2^k >= 1`.
pub proof fn lemma_p2_pos(k: nat)
    ensures
        p2(k) >= 1,
    decreases k,
{
    if k > 0 {
        lemma_p2_pos((k - 1) as nat);
    }
}

/// A power of two is `2^` its exponent.
pub proof fn lemma_p2_lg(p: nat)
    requires
        is_pow2(p),
    ensures
        p2(lg(p as int)) == p,
    decreases p,
{
    if p > 1 {
        lemma_p2_lg(p / 2);
        assert(p == 2 * (p / 2));
    }
}

/// Climbing a concatenation climbs the first part, then the second with the
/// relative index shifted down past the consumed levels.
pub proof fn lemma_climb_concat(node: NodeV, ir: int, s1: Seq<NodeV>, s2: Seq<NodeV>)
    requires
        0 <= ir,
    ensures
        climb(node, ir, s1 + s2) == climb(climb(node, ir, s1), ir / (p2(s1.len()) as int), s2),
    decreases s1.len(),
{
    lemma_p2_pos(s1.len());
    if s1.len() == 0 {
        assert(s1 + s2 =~= s2);
        assert(ir / 1 == ir) by {
            lemma_div_multiples_vanish_fancy(ir, 0, 1);
        }
    } else {
        let next = if ir % 2 == 1 {
            merge_spec(s1[0], node)
        } else {
            merge_spec(node, s1[0])
        };
        assert((s1 + s2).drop_first() =~= s1.drop_first() + s2);
        assert((s1 + s2)[0] == s1[0]);
        lemma_climb_concat(next, ir / 2, s1.drop_first(), s2);
        let pk = p2(s1.drop_first().len()) as int;
        lemma_p2_pos(s1.drop_first().len());
        assert((ir / 2) / pk == ir / (2 * pk)) by {
            lemma_div_denominator(ir, 2, pk);
        }
        assert(p2(s1.len()) == 2 * p2(s1.drop_first().len()));
    }
}

/// Climbing reads only the low `len` bits of the relative index.
pub proof fn lemma_climb_low_bits(node: NodeV, ir: int, c: int, items: Seq<NodeV>)
    requires
        0 <= ir,
        0 <= c,
    ensures
        climb(node, ir + c * (p2(items.len()) as int), items) == climb(node, ir, items),
    decreases items.len(),
{
    if items.len() > 0 {
        let half = p2((items.len() - 1) as nat) as int;
        lemma_p2_pos((items.len() - 1) as nat);
        assert(p2(items.len()) == 2 * half);
        let shifted = ir + c * (2 * half);
        assert(shifted == 2 * (c * half) + ir) by {
            assert(c * (2 * half) == 2 * (c * half)) by (nonlinear_arith);
        }
        assert(shifted % 2 == ir % 2) by {
            lemma_mod_multiples_vanish(c * half, ir, 2);
        }
        assert(shifted / 2 == ir / 2 + c * half) by {
            assert(2 * (c * half) + ir == 2 * (c * half + ir / 2) + (ir % 2));
            lemma_div_multiples_vanish_fancy(c * half + ir / 2, ir % 2, 2);
        }
        let next = if ir % 2 == 1 {
            merge_spec(items[0], node)
        } else {
            merge_spec(node, items[0])
        };
        assert(c * half >= 0) by (nonlinear_arith)
            requires
                c >= 0,
                half >= 1,
        ;
        lemma_climb_low_bits(next, ir / 2, c, items.drop_first());
        assert(ir / 2 + c * half == ir / 2 + c * (p2(items.drop_first().len()) as int));
    }
}

/// Climbing a leaf up its path reconstructs the root of its perfect subtree.
pub proof fn lemma_path_climb(leaves: Seq<LeafV>, a: int, sz: int, ir: int)
    requires
        is_pow2(sz as nat),
        sz >= 1,
        0 <= ir < sz,
    ensures
        path(leaves, a, sz, ir).len() == lg(sz),
        climb(NodeV::Data(leaves[a + ir]), ir, path(leaves, a, sz, ir)) == subtree(leaves, a, sz),
    decreases sz,
{
    if sz > 1 {
        let half = sz / 2;
        assert(sz == 2 * half && is_pow2(half as nat));
        lemma_is_pow2_pos(half as nat);
        if ir < half {
            lemma_path_climb(leaves, a, half, ir);
            let p = path(leaves, a, half, ir);
            let s = subtree(leaves, a + half, half);
            lemma_climb_concat(NodeV::Data(leaves[a + ir]), ir, p, seq![s]);
            assert(p2(p.len()) == half as nat) by {
                lemma_p2_lg(half as nat);
            }
            assert(ir / half == 0) by {
                lemma_basic_div(ir, half);
            }
            assert(climb(subtree(leaves, a, half), 0, seq![s]) == merge_spec(
                subtree(leaves, a, half),
                s,
            )) by {
                reveal_with_fuel(climb, 2);
                assert(seq![s].drop_first() =~= Seq::<NodeV>::empty());
            }
        } else {
            let irr = ir - half;
            lemma_path_climb(leaves, a + half, half, irr);
            let p = path(leaves, a + half, half, irr);
            let s = subtree(leaves, a, half);
            assert(p2(p.len()) == half as nat) by {
                lemma_p2_lg(half as nat);
            }
            lemma_climb_low_bits(NodeV::Data(leaves[a + ir]), irr, 1, p);
            assert(irr + 1 * (p2(p.len()) as int) == ir);
            assert(climb(NodeV::Data(leaves[a + ir]), ir, p) == subtree(leaves, a + half, half));
            lemma_climb_concat(NodeV::Data(leaves[a + ir]), ir, p, seq![s]);
            assert(ir / half == 1) by {
                lemma_div_multiples_vanish_fancy(1, irr, half);
                assert(half * 1 + irr == ir);
            }
            assert(climb(subtree(leaves, a + half, half), 1, seq![s]) == merge_spec(
                s,
                subtree(leaves, a + half, half),
            )) by {
                reveal_with_fuel(climb, 2);
                assert(seq![s].drop_first() =~= Seq::<NodeV>::empty());
            }
        }
    }
}

/// Folding a concatenation folds the parts in turn.
pub proof fn lemma_fold_merge_concat(acc: NodeV, s1: Seq<NodeV>, s2: Seq<NodeV>)
    ensures
        fold_merge(acc, s1 + s2) == fold_merge(fold_merge(acc, s1), s2),
    decreases s1.len(),
{
    if s1.len() == 0 {
        assert(s1 + s2 =~= s2);
    } else {
        assert((s1 + s2).drop_first() =~= s1.drop_first() + s2);
        assert((s1 + s2)[0] == s1[0]);
        lemma_fold_merge_concat(merge_spec(s1[0], acc), s1.drop_first(), s2);
    }
}

/// One step of unbagging: the bag over a suffix opens into its head peak and
/// the bag over the rest.
pub proof fn lemma_bag_skip(nodes: Seq<NodeV>, j: int)
    requires
        0 <= j < nodes.len() - 1,
    ensures
        bag(nodes.skip(j)) == merge_spec(nodes[j], bag(nodes.skip(j + 1))),
{
    assert(nodes.skip(j).len() >= 2);
    assert(nodes.skip(j)[0] == nodes[j]);
    assert(nodes.skip(j).drop_first() =~= nodes.skip(j + 1));
}

/// The nodes for indices `hi` down to `lo`.
pub open spec fn rseg(nodes: Seq<NodeV>, hi: int, lo: int) -> Seq<NodeV> {
    Seq::new((hi - lo + 1) as nat, |x: int| nodes[hi - x])
}

/// Folding the peaks from `hi` down to `lo` onto the bag of everything right
/// of `hi` yields the bag of everything from `lo` on.
pub proof fn lemma_fold_rseg(nodes: Seq<NodeV>, hi: int, lo: int)
    requires
        0 <= lo <= hi <= nodes.len() - 2,
    ensures
        fold_merge(bag(nodes.skip(hi + 1)), rseg(nodes, hi, lo)) == bag(nodes.skip(lo)),
    decreases hi - lo,
{
    let seg = rseg(nodes, hi, lo);
    assert(seg[0] == nodes[hi]);
    lemma_bag_skip(nodes, hi);
    let acc1 = merge_spec(nodes[hi], bag(nodes.skip(hi + 1)));
    assert(acc1 == bag(nodes.skip(hi)));
    if hi == lo {
        assert(seg.drop_first() =~= Seq::<NodeV>::empty());
        assert(fold_merge(bag(nodes.skip(hi + 1)), seg) == acc1) by {
            reveal_with_fuel(fold_merge, 2);
            assert(seg.drop_first() =~= Seq::<NodeV>::empty());
            assert(seg[0] == nodes[hi]);
        }
    } else {
        assert(seg.drop_first() =~= rseg(nodes, hi - 1, lo));
        lemma_fold_rseg(nodes, hi - 1, lo);
    }
}

/// `2^a <= 2^b` for `a <= b`.
pub proof fn lemma_p2_mono(a: nat, b: nat)
    requires
        a <= b,
    ensures
        p2(a) <= p2(b),
    decreases b,
{
    if a < b {
        lemma_p2_mono(a, (b - 1) as nat);
        lemma_p2_pos((b - 1) as nat);
    }
}

/// `n` with at least `j` trailing ones is at least `2^j - 1`.
pub proof fn lemma_t_ones_ge(n: nat, j: nat)
    requires
        t_ones(n) >= j,
    ensures
        n + 1 >= p2(j),
    decreases j,
{
    if j > 0 {
        assert(n % 2 == 1);
        lemma_t_ones_ge(n / 2, (j - 1) as nat);
        assert(n == 2 * (n / 2) + 1);
    }
}

/// `2^62` is the leaf bound.
pub proof fn lemma_p2_62()
    ensures
        p2(62) == MAX_LEAVES,
{
    assert(p2(62) == 0x4000_0000_0000_0000) by {
        reveal_with_fuel(p2, 64);
    }
}

/// A leaf count within bounds has at most 62 trailing ones.
pub proof fn lemma_t_ones_bound(n: nat)
    requires
        n < MAX_LEAVES,
    ensures
        t_ones(n) <= 62,
{
    if t_ones(n) > 62 {
        lemma_t_ones_ge(n, 63);
        lemma_p2_62();
        assert(p2(63) == 2 * p2(62));
        assert(false);
    }
}

/// `2^k` is a power of two.
pub proof fn lemma_p2_is_pow2(k: nat)
    ensures
        is_pow2(p2(k)),
    decreases k,
{
    if k > 0 {
        lemma_p2_is_pow2((k - 1) as nat);
        lemma_p2_pos((k - 1) as nat);
        assert(p2(k) % 2 == 0 && p2(k) / 2 == p2((k - 1) as nat));
    }
}

/// `popcount(2x) == popcount(x)`.
pub proof fn lemma_popcount_double(x: nat)
    ensures
        crate::utils::popcount(2 * x) == crate::utils::popcount(x),
{
    if x > 0 {
        assert((2 * x) % 2 == 0 && (2 * x) / 2 == x);
    }
}

/// Taking the closing power of two out of `n + 1` frees exactly `h` one
/// bits: `popcount(n + 1 - 2^h) == popcount(n) - h` for `h` within the
/// trailing ones of `n`.
pub proof fn lemma_popcount_sub_pow2(n: nat, h: nat)
    requires
        t_ones(n) >= h,
    ensures
        p2(h) <= n + 1,
        crate::utils::popcount(((n + 1) - p2(h)) as nat) + h == crate::utils::popcount(n),
    decreases h,
{
    lemma_t_ones_ge(n, h);
    if h > 0 {
        assert(n % 2 == 1);
        let m = n / 2;
        assert(t_ones(n) == 1 + t_ones(m));
        lemma_popcount_sub_pow2(m, (h - 1) as nat);
        assert(n == 2 * m + 1);
        assert(p2(h) == 2 * p2((h - 1) as nat));
        let inner = ((m + 1) - p2((h - 1) as nat)) as nat;
        assert((n + 1) - p2(h) == 2 * inner);
        lemma_popcount_double(inner);
        assert(crate::utils::popcount(n) == crate::utils::popcount(m) + 1);
    }
}

/// A power of two dividing `n + 1` is bounded by the trailing ones of `n`.
pub proof fn lemma_divides_t_ones(n: nat, h: nat)
    requires
        ((n + 1) as int) % (p2(h) as int) == 0,
    ensures
        t_ones(n) >= h,
    decreases h,
{
    lemma_p2_pos(h);
    if h > 0 {
        let ph = p2(h) as int;
        let q = (n + 1) as int / ph;
        vstd::arithmetic::div_mod::lemma_fundamental_div_mod((n + 1) as int, ph);
        assert(n + 1 == ph * q);
        lemma_p2_pos((h - 1) as nat);
        let ph1 = p2((h - 1) as nat) as int;
        assert(ph == 2 * ph1);
        assert(n + 1 == 2 * (ph1 * q)) by (nonlinear_arith)
            requires
                n + 1 == ph * q,
                ph == 2 * ph1,
        ;
        assert(q >= 1) by (nonlinear_arith)
            requires
                n + 1 >= 1,
                n + 1 == ph * q,
                ph >= 1,
        ;
        assert((n + 1) % 2 == 0) by {
            lemma_mod_multiples_vanish(ph1 * q, 0, 2);
        }
        assert(n % 2 == 1);
        let m = n / 2;
        assert(n == 2 * m + 1);
        assert(m + 1 == ph1 * q);
        assert(((m + 1) as int) % ph1 == 0) by {
            lemma_mod_multiples_vanish(q, 0, ph1);
            assert(ph1 * q == ph1 * q + 0);
        }
        lemma_divides_t_ones(m, (h - 1) as nat);
        assert(t_ones(n) == 1 + t_ones(m));
    }
}

/// Within the trailing ones of `n`, each closing power of two divides
/// `n + 1`.
pub proof fn lemma_t_ones_divides(n: nat, h: nat)
    requires
        t_ones(n) >= h,
    ensures
        ((n + 1) as int) % (p2(h) as int) == 0,
    decreases h,
{
    lemma_p2_pos(h);
    if h == 0 {
        assert((n + 1) % 1 == 0) by {
            lemma_mod_multiples_vanish((n + 1) as int, 0, 1);
            assert(1 * ((n + 1) as int) == 1 * ((n + 1) as int) + 0);
        }
    } else {
        assert(n % 2 == 1);
        let m = n / 2;
        assert(t_ones(n) == 1 + t_ones(m));
        lemma_t_ones_divides(m, (h - 1) as nat);
        let ph1 = p2((h - 1) as nat) as int;
        let q = (m + 1) as int / ph1;
        vstd::arithmetic::div_mod::lemma_fundamental_div_mod((m + 1) as int, ph1);
        assert(m + 1 == ph1 * q);
        assert(n == 2 * m + 1);
        assert(n + 1 == (2 * ph1) * q) by (nonlinear_arith)
            requires
                n + 1 == 2 * (m + 1),
                m + 1 == ph1 * q,
        ;
        assert(p2(h) as int == 2 * ph1);
        assert(((n + 1) as int) % (p2(h) as int) == 0) by {
            lemma_mod_multiples_vanish(q, 0, 2 * ph1);
            assert((2 * ph1) * q == (2 * ph1) * q + 0);
        }
    }
}

/// A subtree's root depends only on the leaves of its span.
pub proof fn lemma_subtree_agrees(l1: Seq<LeafV>, l2: Seq<LeafV>, a: int, sz: int)
    requires
        0 <= a,
        sz >= 1,
        a + sz <= l1.len(),
        a + sz <= l2.len(),
        l1.subrange(a, a + sz) == l2.subrange(a, a + sz),
    ensures
        subtree(l1, a, sz) == subtree(l2, a, sz),
    decreases sz,
{
    let s1 = l1.subrange(a, a + sz);
    let s2 = l2.subrange(a, a + sz);
    if sz == 1 {
        assert(l1[a] == s1[0]);
        assert(l2[a] == s2[0]);
    } else {
        let half = sz / 2;
        assert(l1.subrange(a, a + half) =~= l2.subrange(a, a + half)) by {
            assert forall|j: int| 0 <= j < half implies #[trigger] l1.subrange(a, a + half)[j]
                == l2.subrange(a, a + half)[j] by {
                assert(l1.subrange(a, a + half)[j] == s1[j]);
                assert(l2.subrange(a, a + half)[j] == s2[j]);
            }
        }
        assert(l1.subrange(a + half, a + sz) =~= l2.subrange(a + half, a + sz)) by {
            assert forall|j: int| 0 <= j < sz - half implies #[trigger] l1.subrange(
                a + half,
                a + sz,
            )[j] == l2.subrange(a + half, a + sz)[j] by {
                assert(l1.subrange(a + half, a + sz)[j] == s1[j + half]);
                assert(l2.subrange(a + half, a + sz)[j] == s2[j + half]);
            }
        }
        lemma_subtree_agrees(l1, l2, a, half);
        assert(l1.subrange(a + half, a + half + half) =~= l2.subrange(a + half, a + half + half))
            by {
            assert forall|j: int| 0 <= j < half implies #[trigger] l1.subrange(
                a + half,
                a + half + half,
            )[j] == l2.subrange(a + half, a + half + half)[j] by {
                assert(l1.subrange(a + half, a + half + half)[j] == s1[j + half]);
                assert(l2.subrange(a + half, a + half + half)[j] == s2[j + half]);
            }
        }
        lemma_subtree_agrees(l1, l2, a + half, half);
    }
}

/// The position of the root of the perfect subtree over leaves
/// `[a, a + sz)`: right after the `2*sz - 2` positions of its descendants.
pub open spec fn subtree_pos(a: int, sz: int) -> int {
    mmr_size_spec(a as nat) + 2 * (sz - 1)
}

/// A span that is a complete, aligned power-of-two block.
pub open spec fn span_aligned(a: int, sz: int) -> bool {
    a >= 0 && sz >= 1 && is_pow2(sz as nat) && a % sz == 0
}

/// The slot of a complete subtree holds exactly that subtree's root.
pub open spec fn subtree_slot_ok(st: Seq<MMRNode>, leaves: Seq<LeafV>, a: int, sz: int) -> bool {
    0 <= subtree_pos(a, sz) < st.len() && st[subtree_pos(a, sz)]@ == subtree(leaves, a, sz)
}

/// The model of a leaf slot of the store.
pub open spec fn leaf_v_at(st: Seq<MMRNode>, i: int) -> LeafV {
    if 0 <= leaf_pos_spec(i as nat) < st.len() {
        match st[leaf_pos_spec(i as nat)] {
            MMRNode::Data(l) => l@,
            MMRNode::Hash(_) => arbitrary(),
        }
    } else {
        arbitrary()
    }
}

/// The leaf slot for index `i` is present and holds a leaf datum.
pub open spec fn leaf_slot_ok(st: Seq<MMRNode>, i: int) -> bool {
    0 <= leaf_pos_spec(i as nat) < st.len() && st[leaf_pos_spec(i as nat)] is Data
}

/// The leaf sequence a store holds, read off its leaf positions.
pub open spec fn store_leaves(st: Seq<MMRNode>, n: int) -> Seq<LeafV> {
    Seq::new(n as nat, |i: int| leaf_v_at(st, i))
}

/// A store is sound for a leaf count when it has exactly the positions the
/// count dictates, a leaf datum at every leaf position, and the root of
/// every complete aligned subtree at that subtree's canonical position.
pub open spec fn store_ok(st: Seq<MMRNode>, n: u64) -> bool {
    &&& n <= MAX_LEAVES
    &&& st.len() == mmr_size_spec(n as nat)
    &&& forall|i: int| 0 <= i < n ==> #[trigger] leaf_slot_ok(st, i)
    &&& forall|a: int, sz: int|
        span_aligned(a, sz) && a + sz <= n ==> #[trigger] subtree_slot_ok(
            st,
            store_leaves(st, n as int),
            a,
            sz,
        )
}

/// The append-only accumulator: a position-addressed store of nodes plus the
/// number of leaves pushed so far.
pub struct Mmr {
    store: Vec<MMRNode>,
    leaf_count: u64,
}

impl Mmr {
    /// The pushed leaves, read back from the store's leaf positions: the
    /// mathematical content of the accumulator.
    pub closed spec fn leaves(self) -> Seq<LeafV> {
        store_leaves(self.store@, self.leaf_count as int)
    }

    /// The number of leaves pushed so far.
    pub open spec fn num_leaves(self) -> int {
        self.leaves().len() as int
    }

    /// The store matches the leaf count.
    pub closed spec fn wf(self) -> bool {
        store_ok(self.store@, self.leaf_count)
    }

    /// A fresh accumulator with no leaves.
    pub fn empty() -> (r: Mmr)
        ensures
            r.wf(),
            r.leaves() == Seq::<LeafV>::empty(),
    {
        let r = Mmr { store: Vec::new(), leaf_count: 0 };
        proof {
            assert(r.leaves() =~= Seq::<LeafV>::empty());
        }
        r
    }

    /// Wraps an existing store.  The store is not validated against the
    /// count beyond what the stated conditions say: meeting them is the
    /// caller's responsibility.
    pub fn new(leaf_count: u64, store: Vec<MMRNode>) -> (r: Mmr)
        requires
            store_ok(store@, leaf_count),
        ensures
            r.wf(),
            r.num_leaves() == leaf_count,
            r.leaves() == Seq::new(leaf_count as nat, |i: int| leaf_v_at(store@, i)),
    {
        let r = Mmr { store, leaf_count };
        proof {
            assert(r.leaves() =~= Seq::new(leaf_count as nat, |i: int| leaf_v_at(r.store@, i)));
        }
        r
    }

    /// The number of leaves.
    pub fn leaf_count(&self) -> (r: u64)
        ensures
            r as int == self.num_leaves(),
            self.wf() ==> r <= MAX_LEAVES,
    {
        self.leaf_count
    }

    /// The number of occupied positions.
    pub fn size(&self) -> (r: u64)
        requires
            self.wf(),
        ensures
            r as int == mmr_size_spec(self.leaves().len()),
    {
        proof {
            assert(self.leaves().len() == self.leaf_count as nat);
        }
        mmr_size_from_number_of_leaves(self.leaf_count)
    }

    /// A copy of the backing store, node by node.  What comes out satisfies
    /// the store conditions for this accumulator's leaf count, so it can be
    /// wrapped again with `new`.
    pub fn export_store(&self) -> (r: Vec<MMRNode>)
        requires
            self.wf(),
        ensures
            store_ok(r@, self.leaves().len() as u64),
            store_leaves(r@, self.leaves().len() as int) == self.leaves(),
            self.leaves().len() <= MAX_LEAVES,
    {
        let n = self.store.len();
        let mut store: Vec<MMRNode> = Vec::new();
        let mut i: usize = 0;
        while i < n
            invariant
                n == self.store@.len(),
                i <= n,
                store@.len() == i,
                forall|j: int| 0 <= j < i ==> (#[trigger] store@[j])@ == self.store@[j]@,
            decreases n - i,
        {
            store.push(self.store[i].duplicate());
            i = i + 1;
        }
        proof {
            let cnt = self.leaf_count;
            assert(self.leaves().len() == cnt as nat);
            assert forall|j: int| 0 <= j < cnt implies #[trigger] leaf_slot_ok(store@, j)
                && leaf_v_at(store@, j) == leaf_v_at(self.store@, j) by {
                assert(leaf_slot_ok(self.store@, j));
                let p = leaf_pos_spec(j as nat);
                assert(store@[p]@ == self.store@[p]@);
                match self.store@[p] {
                    MMRNode::Data(l) => {
                        match store@[p] {
                            MMRNode::Data(l2) => {
                                assert(l2@ == l@);
                            },
                            MMRNode::Hash(_) => {
                                assert(false);
                            },
                        }
                    },
                    MMRNode::Hash(_) => {
                        assert(false);
                    },
                }
            }
            assert(store_leaves(store@, cnt as int) =~= self.leaves());
            assert forall|a: int, szz: int|
                span_aligned(a, szz) && a + szz <= cnt implies #[trigger] subtree_slot_ok(
                store@,
                store_leaves(store@, cnt as int),
                a,
                szz,
            ) by {
                assert(subtree_slot_ok(
                    self.store@,
                    store_leaves(self.store@, cnt as int),
                    a,
                    szz,
                ));
                let p = subtree_pos(a, szz);
                assert(store@[p]@ == self.store@[p]@);
            }
            assert(store_ok(store@, cnt));
        }
        store
    }

    /// Structural copy with a known result: snapshots derived from a common
    /// ancestor each keep an independent store.
    pub fn duplicate(&self) -> (r: Mmr)
        requires
            self.wf(),
        ensures
            r.wf(),
            r.leaves() == self.leaves(),
            r.num_leaves() == self.num_leaves(),
    {
        let store = self.export_store();
        let count = self.leaf_count();
        proof {
            assert(count == self.leaves().len() as u64);
        }
        Mmr::new(count, store)
    }

    /// Appends one leaf, merging peaks as required, and returns the position
    /// assigned to the leaf.
    pub fn push(&mut self, leaf: LeafData) -> (pos: u64)
        requires
            old(self).wf(),
            old(self).num_leaves() < MAX_LEAVES,
        ensures
            final(self).wf(),
            final(self).leaves() == old(self).leaves().push(leaf@),
            pos as int == leaf_pos_spec(old(self).leaves().len()),
            final(self).num_leaves() == old(self).num_leaves() + 1,
    {
        let n = self.leaf_count;
        let ghost old_store = self.store@;
        let ghost old_leaves = self.leaves();
        let ghost new_leaves = old_leaves.push(leaf@);
        proof {
            assert(old_leaves.len() == n as nat);
            lemma_t_ones_bound(n as nat);
            lemma_mmr_size_ge(n as nat);
        }
        let pos = self.store.len() as u64;
        self.store.push(MMRNode::Data(leaf));
        let mut m: u64 = n;
        let mut sz: u64 = 1;
        let ghost mut kk: nat = 0;
        proof {
            assert(new_leaves[n as int] == leaf@);
            assert(self.store@[mmr_size_spec(n as nat) + 0]@ == subtree(new_leaves, n + 1 - 1, 1));
        }
        while m % 2 == 1
            invariant
                n < MAX_LEAVES,
                t_ones(n as nat) <= 62,
                old_store.len() == mmr_size_spec(n as nat),
                old_leaves.len() == n as nat,
                new_leaves == old_leaves.push(leaf@),
                sz as nat == p2(kk),
                t_ones(n as nat) == kk + t_ones(m as nat),
                self.leaf_count == n,
                self.store@.len() == mmr_size_spec(n as nat) + 1 + kk,
                self.store@.take(old_store.len() as int) == old_store,
                self.store@[old_store.len() as int] == MMRNode::Data(leaf),
                forall|a: int, szz: int|
                    span_aligned(a, szz) && a + szz <= n ==> #[trigger] subtree_slot_ok(
                        old_store,
                        old_leaves,
                        a,
                        szz,
                    ),
                forall|hh: int|
                    0 <= hh <= kk ==> (#[trigger] self.store@[mmr_size_spec(n as nat) + hh])@
                        == subtree(
                        new_leaves,
                        n + 1 - p2(hh as nat),
                        p2(hh as nat) as int,
                    ),
            decreases m,
        {
            proof {
                assert(t_ones(m as nat) >= 1);
                assert(kk + 1 <= 62);
                assert(sz as int <= p2(61)) by {
                    lemma_p2_mono(kk, 61);
                }
                assert(p2(61) < MAX_LEAVES) by {
                    lemma_p2_mono(61, 62);
                    lemma_p2_62();
                }
                lemma_t_ones_ge(n as nat, kk + 1);
                assert(p2(kk + 1) == 2 * p2(kk));
                assert(2 * (sz as int) <= n + 1);
                lemma_mmr_size_ge(n as nat);
                assert(2 * (sz as int) <= self.store@.len());
            }
            let len = self.store.len();
            let off = (2 * sz) as usize;
            proof {
                assert(2 * (sz as int) <= len as int);
                assert(len <= usize::MAX);
                assert(off as int == 2 * (sz as int));
                lemma_p2_pos(kk);
                assert(2 <= off <= len);
            }
            let right = self.store[len - 1].duplicate();
            let left = self.store[len - off].duplicate();
            let parent = MergeStrategy::merge(&left, &right);
            proof {
                let pp = p2(kk) as int;
                let a_r = n + 1 - pp;
                let a_l = n + 1 - 2 * pp;
                // The right child is the node closed in the previous round.
                assert(len - 1 == mmr_size_spec(n as nat) + kk);
                assert(right@ == subtree(new_leaves, a_r, pp));
                // The left child is a complete subtree of the old store.
                lemma_t_ones_divides(n as nat, kk + 1);
                let q = ((n + 1) as int) / (2 * pp);
                vstd::arithmetic::div_mod::lemma_fundamental_div_mod((n + 1) as int, 2 * pp);
                assert(n + 1 == (2 * pp) * q);
                assert(a_l == pp * (2 * q - 2)) by (nonlinear_arith)
                    requires
                        n + 1 == (2 * pp) * q,
                        a_l == n + 1 - 2 * pp,
                ;
                assert(a_l % pp == 0) by {
                    lemma_mod_multiples_vanish(2 * q - 2, 0, pp);
                    assert(pp * (2 * q - 2) == pp * (2 * q - 2) + 0);
                }
                lemma_p2_is_pow2(kk);
                assert(span_aligned(a_l, pp));
                assert(a_l + pp <= n);
                assert(subtree_slot_ok(old_store, old_leaves, a_l, pp));
                // Its canonical position is exactly where the code reads.
                lemma_popcount_sub_pow2(n as nat, kk + 1);
                assert(crate::utils::popcount(a_l as nat) + kk + 1 == crate::utils::popcount(
                    n as nat,
                ));
                assert(subtree_pos(a_l, pp) == len - off);
                assert(self.store@[len - off] == old_store[subtree_pos(a_l, pp)]);
                assert(old_leaves.subrange(a_l, a_l + pp) =~= new_leaves.subrange(a_l, a_l + pp));
                lemma_subtree_agrees(old_leaves, new_leaves, a_l, pp);
                assert(left@ == subtree(new_leaves, a_l, pp));
                // So the merged parent closes the span of doubled size.
                assert(subtree(new_leaves, a_l, 2 * pp) == merge_spec(
                    subtree(new_leaves, a_l, pp),
                    subtree(new_leaves, a_l + pp, pp),
                ));
                assert(parent@ == subtree(new_leaves, a_l, 2 * pp));
            }
            self.store.push(parent);
            proof {
                kk = kk + 1;
                assert(t_ones(m as nat) == 1 + t_ones((m / 2) as nat));
                assert(self.store@.take(old_store.len() as int) == old_store) by {
                    assert(self.store@.take(old_store.len() as int) =~= old_store);
                }
                assert(p2(kk) == 2 * p2((kk - 1) as nat));
                assert(self.store@[mmr_size_spec(n as nat) + kk]@ == subtree(
                    new_leaves,
                    n + 1 - p2(kk),
                    p2(kk) as int,
                ));
            }
            m = m / 2;
            sz = 2 * sz;
        }
        proof {
            assert(t_ones(m as nat) == 0);
            assert(kk == t_ones(n as nat));
            lemma_mmr_size_succ(n as nat);
            assert(self.store@.len() == mmr_size_spec((n + 1) as nat));
        }
        self.leaf_count = n + 1;
        proof {
            let st = self.store@;
            assert forall|i: int| 0 <= i < n + 1 implies #[trigger] leaf_slot_ok(st, i) by {
                lemma_mmr_size_mono(i as nat, (n + 1) as nat);
                lemma_mmr_size_ge(i as nat);
                if i < n {
                    assert(leaf_slot_ok(old_store, i));
                    lemma_mmr_size_mono(i as nat, n as nat);
                    assert(st[leaf_pos_spec(i as nat)] == old_store[leaf_pos_spec(i as nat)]);
                } else {
                    assert(leaf_pos_spec(i as nat) == old_store.len());
                    assert(st[old_store.len() as int] == MMRNode::Data(leaf));
                }
            }
            assert forall|i: int| 0 <= i < n + 1 implies store_leaves(st, (n + 1) as int)[i]
                == new_leaves[i] by {
                lemma_mmr_size_mono(i as nat, (n + 1) as nat);
                lemma_mmr_size_ge(i as nat);
                if i < n {
                    lemma_mmr_size_mono(i as nat, n as nat);
                    assert(st[leaf_pos_spec(i as nat)] == old_store[leaf_pos_spec(i as nat)]);
                } else {
                    assert(st[leaf_pos_spec(i as nat)] == MMRNode::Data(leaf));
                }
            }
            assert(store_leaves(st, (n + 1) as int) =~= new_leaves);
            // Every complete subtree of the grown accumulator sits at its
            // canonical position: old ones untouched, and one new subtree
            // per merge height just appended.
            assert forall|a: int, szz: int|
                span_aligned(a, szz) && a + szz <= n + 1 implies #[trigger] subtree_slot_ok(
                st,
                store_leaves(st, (n + 1) as int),
                a,
                szz,
            ) by {
                lemma_is_pow2_pos(szz as nat);
                if a + szz <= n {
                    assert(subtree_slot_ok(old_store, old_leaves, a, szz));
                    let p = subtree_pos(a, szz);
                    assert(st[p] == old_store[p]);
                    assert(old_leaves.subrange(a, a + szz) =~= new_leaves.subrange(a, a + szz));
                    lemma_subtree_agrees(old_leaves, new_leaves, a, szz);
                } else {
                    let h = lg(szz);
                    lemma_p2_lg(szz as nat);
                    assert(p2(h) as int == szz);
                    assert((n + 1) as int % szz == 0) by {
                        vstd::arithmetic::div_mod::lemma_mod_add_multiples_vanish(a, szz);
                        assert((a + szz) % szz == a % szz);
                    }
                    lemma_divides_t_ones(n as nat, h);
                    assert(h <= kk);
                    assert(st[mmr_size_spec(n as nat) + h]@ == subtree(
                        new_leaves,
                        n + 1 - p2(h),
                        p2(h) as int,
                    ));
                    lemma_popcount_sub_pow2(n as nat, h);
                    assert(a == n + 1 - szz);
                    assert(subtree_pos(a, szz) == mmr_size_spec(n as nat) + h);
                }
            }
            assert(self.wf());
            assert(self.leaves() =~= old_leaves.push(leaf@));
        }
        pos
    }
}


/// The node views of a node vector.
pub open spec fn nodes_view(s: Seq<MMRNode>) -> Seq<NodeV> {
    s.map_values(|nd: MMRNode| nd@)
}

/// The integer view of a span vector.
pub open spec fn spans_view(s: Seq<(u64, u64)>) -> Seq<(int, int)> {
    s.map_values(|sp: (u64, u64)| (sp.0 as int, sp.1 as int))
}

pub proof fn lemma_peak_of_leaf_nonneg(spans: Seq<(int, int)>, i: int)
    ensures
        peak_of_leaf(spans, i) >= 0,
    decreases spans.len(),
{
    if spans.len() > 0 && i >= spans[0].0 + spans[0].1 {
        lemma_peak_of_leaf_nonneg(spans.drop_first(), i);
    }
}

/// The greatest power of two at most `n`, found by doubling.
pub fn hi_pow2_exec(n: u64) -> (r: u64)
    requires
        n >= 1,
    ensures
        r as nat == hi_pow2(n as nat),
{
    let mut p: u64 = 1;
    while p <= n / 2
        invariant
            1 <= p <= n,
            is_pow2(p as nat),
        decreases n - p,
    {
        proof {
            assert(is_pow2((2 * p) as nat)) by {
                assert((2 * p) as nat % 2 == 0 && (2 * p) as nat / 2 == p as nat);
            }
        }
        p = 2 * p;
    }
    proof {
        assert(n < 2 * p);
        lemma_hi_pow2_unique(n as nat, p as nat);
    }
    p
}

/// The peak spans of an accumulator over `n` leaves.
pub fn peak_spans_exec(n: u64) -> (r: Vec<(u64, u64)>)
    requires
        n <= MAX_LEAVES,
    ensures
        spans_view(r@) == peaks_from(n as int, 0),
{
    let mut out: Vec<(u64, u64)> = Vec::new();
    let mut a: u64 = 0;
    let mut rem: u64 = n;
    proof {
        assert(spans_view(out@) =~= Seq::<(int, int)>::empty());
        assert(spans_view(out@) + peaks_from(n as int, 0) =~= peaks_from(n as int, 0));
    }
    while rem > 0
        invariant
            a + rem == n,
            spans_view(out@) + peaks_from(rem as int, a as int) == peaks_from(n as int, 0),
        decreases rem,
    {
        let ghost prev = spans_view(out@);
        let p = hi_pow2_exec(rem);
        proof {
            lemma_hi_pow2(rem as nat);
        }
        out.push((a, p));
        proof {
            assert(spans_view(out@) =~= prev + seq![(a as int, p as int)]);
            assert(peaks_from(rem as int, a as int) == seq![(a as int, p as int)] + peaks_from(
                rem - p,
                a + p,
            ));
            assert(spans_view(out@) + peaks_from(rem - p, a + p) =~= prev + peaks_from(
                rem as int,
                a as int,
            ));
        }
        a = a + p;
        rem = rem - p;
    }
    proof {
        assert(spans_view(out@) + peaks_from(0, a as int) =~= spans_view(out@));
    }
    out
}

impl Mmr {
    /// Recomputes the root node of the perfect subtree over the leaf span
    /// `[a, a + sz)` from the stored leaves.
    fn node_of_span(&self, a: u64, sz: u64) -> (r: MMRNode)
        requires
            self.wf(),
            1 <= sz,
            is_pow2(sz as nat),
            a as int + sz as int <= self.num_leaves(),
        ensures
            r@ == subtree(self.leaves(), a as int, sz as int),
        decreases sz,
    {
        proof {
            assert(self.leaves().len() == self.leaf_count as nat);
        }
        if sz == 1 {
            proof {
                assert(leaf_slot_ok(self.store@, a as int));
                lemma_mmr_size_mono(a as nat, self.leaf_count as nat);
                lemma_mmr_size_ge(a as nat);
            }
            let pos = leaf_index_to_pos(a);
            let sl = self.store.len();
            proof {
                assert((pos as int) < sl as int);
                assert((pos as usize) as int == pos as int);
            }
            let node = self.store[pos as usize].duplicate();
            proof {
                match self.store@[pos as int] {
                    MMRNode::Data(l) => {
                        assert(leaf_v_at(self.store@, a as int) == l@);
                        assert(node@ == NodeV::Data(self.leaves()[a as int]));
                    },
                    MMRNode::Hash(_) => {
                        assert(false);
                    },
                }
            }
            node
        } else {
            let half = sz / 2;
            proof {
                assert(sz as nat % 2 == 0 && is_pow2((sz as nat) / 2));
                lemma_is_pow2_pos(half as nat);
            }
            let l = self.node_of_span(a, half);
            let r = self.node_of_span(a + half, half);
            MergeStrategy::merge(&l, &r)
        }
    }

    /// Folds the current peaks into a single root node.  For a one-leaf
    /// accumulator the root is the leaf datum itself, unmerged.
    pub fn root(&self) -> (r: MMRNode)
        requires
            self.wf(),
            self.num_leaves() >= 1,
        ensures
            r@ == root_spec(self.leaves()),
    {
        let ghost lvs = self.leaves();
        let ghost pk = peak_nodes_of(lvs);
        let n = self.leaf_count;
        proof {
            assert(lvs.len() == n as nat);
        }
        let spans = peak_spans_exec(n);
        proof {
            lemma_peaks_from_wf(n as int, 0);
            assert(spans@.len() == peaks_from(n as int, 0).len());
            assert(spans@.len() > 0);
            assert(pk.len() == spans@.len());
        }
        let m = spans.len();
        let mut nodes: Vec<MMRNode> = Vec::new();
        let mut j: usize = 0;
        while j < m
            invariant
                self.wf(),
                self.num_leaves() == n,
                lvs == self.leaves(),
                pk == peak_nodes_of(lvs),
                n <= MAX_LEAVES,
                m == spans@.len(),
                pk.len() == m,
                spans_view(spans@) == peaks_from(n as int, 0),
                spans_wf(spans_view(spans@), 0, n as int),
                j <= m,
                nodes@.len() == j,
                forall|x: int| 0 <= x < j ==> (#[trigger] nodes@[x])@ == pk[x],
            decreases m - j,
        {
            let sp = spans[j];
            proof {
                lemma_spans_wf_index(spans_view(spans@), 0, n as int, j as int);
                assert(spans_view(spans@)[j as int] == (sp.0 as int, sp.1 as int));
            }
            let nd = self.node_of_span(sp.0, sp.1);
            nodes.push(nd);
            j = j + 1;
        }
        let mut acc = match nodes.pop() {
            Some(nd) => nd,
            None => {
                proof {
                    assert(false);
                }
                MMRNode::Hash(Vec::new())
            },
        };
        let mut idx = nodes.len();
        proof {
            assert(idx == m - 1);
            assert(acc@ == pk[m - 1]);
            assert(pk.skip(m - 1).len() == 1);
            assert(pk.skip(m - 1)[0] == pk[m - 1]);
            assert(acc@ == bag(pk.skip(m - 1)));
        }
        while idx > 0
            invariant
                pk.len() == m,
                m >= 1,
                idx <= m - 1,
                nodes@.len() == idx,
                forall|x: int| 0 <= x < idx ==> (#[trigger] nodes@[x])@ == pk[x],
                acc@ == bag(pk.skip(idx as int)),
            decreases idx,
        {
            let nd = match nodes.pop() {
                Some(nd) => nd,
                None => {
                    proof {
                        assert(false);
                    }
                    MMRNode::Hash(Vec::new())
                },
            };
            proof {
                assert(nd@ == pk[idx - 1]);
                lemma_bag_skip(pk, idx - 1);
            }
            acc = MergeStrategy::merge(&nd, &acc);
            idx = idx - 1;
        }
        proof {
            assert(pk.skip(0) =~= pk);
        }
        acc
    }

    /// Collects the sibling nodes along the path of relative leaf `ir`
    /// inside the span `[a, a + sz)`, bottom up.
    fn collect_path(&self, a: u64, sz: u64, ir: u64, out: &mut Vec<MMRNode>)
        requires
            self.wf(),
            1 <= sz,
            is_pow2(sz as nat),
            ir < sz,
            a as int + sz as int <= self.num_leaves(),
        ensures
            nodes_view(final(out)@) == nodes_view(old(out)@) + path(
                self.leaves(),
                a as int,
                sz as int,
                ir as int,
            ),
        decreases sz,
    {
        if sz > 1 {
            let half = sz / 2;
            proof {
                assert(sz as nat % 2 == 0 && is_pow2((sz as nat) / 2));
                lemma_is_pow2_pos(half as nat);
            }
            if ir < half {
                self.collect_path(a, half, ir, out);
                let s = self.node_of_span(a + half, half);
                let ghost before = nodes_view(out@);
                out.push(s);
                proof {
                    assert(nodes_view(out@) =~= before + seq![
                        subtree(self.leaves(), a + half, half as int),
                    ]);
                    assert(nodes_view(out@) =~= nodes_view(old(out)@) + path(
                        self.leaves(),
                        a as int,
                        sz as int,
                        ir as int,
                    ));
                }
            } else {
                self.collect_path(a + half, half, ir - half, out);
                let s = self.node_of_span(a, half);
                let ghost before = nodes_view(out@);
                out.push(s);
                proof {
                    assert(nodes_view(out@) =~= before + seq![
                        subtree(self.leaves(), a as int, half as int),
                    ]);
                    assert(nodes_view(out@) =~= nodes_view(old(out)@) + path(
                        self.leaves(),
                        a as int,
                        sz as int,
                        ir as int,
                    ));
                }
            }
        } else {
            proof {
                assert(path(self.leaves(), a as int, sz as int, ir as int) =~= Seq::<
                    NodeV,
                >::empty());
                assert(nodes_view(out@) =~= nodes_view(out@) + Seq::<NodeV>::empty());
            }
        }
    }

    /// Produces the canonical membership proof for the leaf at `leaf_index`:
    /// the minimal sibling and peak set from which the root can be
    /// recomputed, in the order the verification algorithm consumes it.
    pub fn gen_proof(&self, leaf_index: u64) -> (r: Vec<MMRNode>)
        requires
            self.wf(),
            (leaf_index as int) < self.num_leaves(),
        ensures
            nodes_view(r@) == proof_items_spec(self.leaves(), leaf_index as int),
    {
        let ghost lvs = self.leaves();
        let n = self.leaf_count;
        proof {
            assert(lvs.len() == n as nat);
        }
        let spans = peak_spans_exec(n);
        let ghost sv = spans_view(spans@);
        proof {
            lemma_peaks_from_wf(n as int, 0);
            lemma_peak_of_leaf(sv, 0, n as int, leaf_index as int);
        }
        let m = spans.len();
        let k = find_peak(&spans, leaf_index, Ghost(n as int));
        let sp = spans[k];
        let a = sp.0;
        let p = sp.1;
        proof {
            lemma_spans_wf_index(sv, 0, n as int, k as int);
            assert(sv[k as int] == (a as int, p as int));
            assert(a <= leaf_index && (leaf_index as int) < a + p);
        }
        let mut out: Vec<MMRNode> = Vec::new();
        self.collect_path(a, p, leaf_index - a, &mut out);
        let ghost path_part = path(lvs, a as int, p as int, (leaf_index - a) as int);
        let ghost rights = Seq::new(
            (m - 1 - k) as nat,
            |x: int| subtree(lvs, sv[m - 1 - x].0, sv[m - 1 - x].1),
        );
        let ghost lefts = Seq::new(
            k as nat,
            |x: int| subtree(lvs, sv[k - 1 - x].0, sv[k - 1 - x].1),
        );
        let mut x: usize = 0;
        while x < m - 1 - k
            invariant
                self.wf(),
                self.leaves() == lvs,
                self.num_leaves() == n,
                n <= MAX_LEAVES,
                m == spans@.len(),
                sv == spans_view(spans@),
                spans_wf(sv, 0, n as int),
                k < m,
                x <= m - 1 - k,
                rights == Seq::new(
                    (m - 1 - k) as nat,
                    |y: int| subtree(lvs, sv[m - 1 - y].0, sv[m - 1 - y].1),
                ),
                nodes_view(out@) == path_part + rights.take(x as int),
            decreases m - 1 - k - x,
        {
            let sp2 = spans[m - 1 - x];
            proof {
                lemma_spans_wf_index(sv, 0, n as int, m - 1 - x);
                assert(sv[m - 1 - x] == (sp2.0 as int, sp2.1 as int));
            }
            let nd = self.node_of_span(sp2.0, sp2.1);
            let ghost before = nodes_view(out@);
            out.push(nd);
            proof {
                assert(nodes_view(out@) =~= before + seq![rights[x as int]]);
                assert(nodes_view(out@) =~= path_part + rights.take(x + 1));
            }
            x = x + 1;
        }
        proof {
            assert(rights.take((m - 1 - k) as int) =~= rights);
        }
        let mut y: usize = 0;
        while y < k
            invariant
                self.wf(),
                self.leaves() == lvs,
                self.num_leaves() == n,
                n <= MAX_LEAVES,
                m == spans@.len(),
                sv == spans_view(spans@),
                spans_wf(sv, 0, n as int),
                k < m,
                y <= k,
                lefts == Seq::new(
                    k as nat,
                    |z: int| subtree(lvs, sv[k - 1 - z].0, sv[k - 1 - z].1),
                ),
                nodes_view(out@) == path_part + rights + lefts.take(y as int),
            decreases k - y,
        {
            let sp3 = spans[k - 1 - y];
            proof {
                lemma_spans_wf_index(sv, 0, n as int, k - 1 - y);
                assert(sv[k - 1 - y] == (sp3.0 as int, sp3.1 as int));
            }
            let nd = self.node_of_span(sp3.0, sp3.1);
            let ghost before = nodes_view(out@);
            out.push(nd);
            proof {
                assert(nodes_view(out@) =~= before + seq![lefts[y as int]]);
                assert(nodes_view(out@) =~= path_part + rights + lefts.take(y + 1));
            }
            y = y + 1;
        }
        proof {
            assert(lefts.take(k as int) =~= lefts);
            assert(nodes_view(out@) =~= proof_items_spec(lvs, leaf_index as int));
        }
        out
    }
}

/// Finds the peak span holding leaf index `i`.
fn find_peak(spans: &Vec<(u64, u64)>, i: u64, Ghost(n): Ghost<int>) -> (r: usize)
    requires
        spans_wf(spans_view(spans@), 0, n),
        0 <= i < n,
        n <= MAX_LEAVES as int,
    ensures
        r as int == peak_of_leaf(spans_view(spans@), i as int),
        (r as int) < spans@.len(),
        spans@[r as int].0 <= i < spans@[r as int].0 + spans@[r as int].1,
{
    let ghost sv = spans_view(spans@);
    let ghost kstar = peak_of_leaf(sv, i as int);
    proof {
        lemma_peak_of_leaf(sv, 0, n, i as int);
    }
    let m = spans.len();
    let mut k: usize = 0;
    let mut stop: bool = false;
    proof {
        assert(sv.skip(0) =~= sv);
    }
    while !stop
        invariant
            sv == spans_view(spans@),
            spans_wf(sv, 0, n),
            0 <= i < n,
            n <= MAX_LEAVES as int,
            m == spans@.len(),
            kstar == peak_of_leaf(sv, i as int),
            0 <= kstar < m,
            k <= kstar,
            k as int + peak_of_leaf(sv.skip(k as int), i as int) == kstar,
            stop ==> (sv[k as int].0 <= i as int && (i as int) < sv[k as int].0 + sv[k as int].1
                && k as int == kstar),
        decreases m - k, 1int - (if stop { 1int } else { 0int }),
    {
        proof {
            assert(sv.skip(k as int).len() > 0);
            assert(sv.skip(k as int)[0] == sv[k as int]);
            lemma_spans_wf_index(sv, 0, n, k as int);
        }
        let sp = spans[k];
        proof {
            assert(sv[k as int] == (sp.0 as int, sp.1 as int));
            assert(sp.0 as int + sp.1 as int <= n);
        }
        if i < sp.0 + sp.1 {
            proof {
                assert(peak_of_leaf(sv.skip(k as int), i as int) == 0);
                if !(sv[k as int].0 <= i as int) {
                    lemma_peak_of_leaf(sv, 0, n, i as int);
                    assert(sv[kstar].0 <= i as int && (i as int) < sv[kstar].0 + sv[kstar].1);
                    assert(false);
                }
            }
            stop = true;
        } else {
            proof {
                assert(sv.skip(k as int).drop_first() =~= sv.skip(k as int + 1));
                assert(peak_of_leaf(sv.skip(k as int), i as int) == 1 + peak_of_leaf(
                    sv.skip(k as int + 1),
                    i as int,
                ));
                lemma_peak_of_leaf_nonneg(sv.skip(k as int + 1), i as int);
            }
            k = k + 1;
        }
    }
    k
}

/// A power of two has a single one bit.
pub proof fn lemma_popcount_p2(k: nat)
    ensures
        crate::utils::popcount(p2(k)) == 1,
    decreases k,
{
    if k > 0 {
        lemma_popcount_p2((k - 1) as nat);
        assert(p2(k) == 2 * p2((k - 1) as nat));
        assert(p2(k) % 2 == 0 && p2(k) / 2 == p2((k - 1) as nat));
    } else {
        assert(crate::utils::popcount(1) == 1) by {
            reveal_with_fuel(crate::utils::popcount, 2);
        }
    }
}

/// The largest admissible accumulator size.
pub proof fn lemma_max_mmr_size()
    ensures
        mmr_size_spec(MAX_LEAVES as nat) == 0x7fff_ffff_ffff_ffff,
{
    lemma_p2_62();
    lemma_popcount_p2(62);
}

/// The exponent of a power of two, computed by halving.
pub fn lg_exec(p: u64) -> (r: u64)
    requires
        p <= MAX_LEAVES,
    ensures
        r as nat == lg(p as int),
{
    let mut m: u64 = p;
    let mut r: u64 = 0;
    proof {
        assert(p2(0) == 1);
        assert(1 * (m as nat) == m as nat);
    }
    while m > 1
        invariant
            lg(p as int) == r as nat + lg(m as int),
            m <= p <= MAX_LEAVES,
            m >= 1 ==> p2(r as nat) * (m as nat) <= p as nat,
            p >= 1 ==> m >= 1,
        decreases m,
    {
        proof {
            if r >= 62 {
                lemma_p2_mono(62, r as nat);
                lemma_p2_62();
                assert(p2(r as nat) * (m as nat) >= MAX_LEAVES * 2) by (nonlinear_arith)
                    requires
                        p2(r as nat) >= MAX_LEAVES,
                        m as nat >= 2,
                ;
                assert(false);
            }
            assert(p2(r as nat + 1) == 2 * p2(r as nat));
            assert(p2(r as nat + 1) * ((m / 2) as nat) <= p2(r as nat) * (m as nat)) by (
            nonlinear_arith)
                requires
                    p2(r as nat + 1) == 2 * p2(r as nat),
                    2 * ((m / 2) as nat) <= m as nat,
            ;
            assert(lg(m as int) == 1 + lg((m / 2) as int));
        }
        m = m / 2;
        r = r + 1;
    }
    r
}

impl Mmr {
    /// Checks a membership proof: recomputes the root from the claimed
    /// `(position, node)` pair and the proof items, against the stated
    /// accumulator size, and compares with `root` by node equality.
    pub fn verify(
        root: &MMRNode,
        mmr_size: u64,
        proof_items: &Vec<MMRNode>,
        pos: u64,
        node: &MMRNode,
    ) -> (r: bool)
        requires
            mmr_size <= 0x7fff_ffff_ffff_ffff,
        ensures
            r == verify_spec(root@, mmr_size as int, nodes_view(proof_items@), pos as int, node@),
    {
        let ghost itemsv = nodes_view(proof_items@);
        let size = mmr_size;
        // Recover the leaf count from the stated size.
        let mut nn: u64 = 0;
        let mut cur_size: u64 = 0;
        while cur_size < size
            invariant
                size <= 0x7fff_ffff_ffff_ffff,
                nn <= MAX_LEAVES,
                cur_size as int == mmr_size_spec(nn as nat),
                n_of_size_rec(size as int, 0) == n_of_size_rec(size as int, nn as int),
            decreases MAX_LEAVES - nn,
        {
            proof {
                lemma_mmr_size_ge(nn as nat);
                if nn == MAX_LEAVES {
                    lemma_max_mmr_size();
                    assert(false);
                }
                assert(n_of_size_rec(size as int, nn as int) == n_of_size_rec(
                    size as int,
                    nn as int + 1,
                ));
                lemma_mmr_size_succ(nn as nat);
            }
            nn = nn + 1;
            cur_size = mmr_size_from_number_of_leaves(nn);
        }
        if cur_size != size {
            proof {
                assert(n_of_size_rec(size as int, nn as int) == None::<int>);
            }
            return false;
        }
        let n = nn;
        proof {
            lemma_mmr_size_ge(n as nat);
            assert(n_of_size(size as int) == Some(n as int));
        }
        // Recover the leaf index from the stated position.
        let mut ii: u64 = 0;
        let mut found: bool = false;
        let mut past: bool = false;
        while ii < n && !found && !past
            invariant
                n <= MAX_LEAVES,
                ii <= n,
                i_of_pos_rec(pos as int, n as int, 0) == (if found {
                    Some(ii as int)
                } else if past {
                    None
                } else {
                    i_of_pos_rec(pos as int, n as int, ii as int)
                }),
                found ==> ii < n,
            decreases n - ii, (if found || past { 0int } else { 1int }),
        {
            let lp = leaf_index_to_pos(ii);
            if lp == pos {
                found = true;
            } else if lp > pos {
                past = true;
            } else {
                proof {
                    assert(i_of_pos_rec(pos as int, n as int, ii as int) == i_of_pos_rec(
                        pos as int,
                        n as int,
                        ii as int + 1,
                    ));
                }
                ii = ii + 1;
            }
        }
        if !found {
            proof {
                assert(i_of_pos(pos as int, n as int) == None::<int>);
            }
            return false;
        }
        let i = ii;
        proof {
            assert(i_of_pos(pos as int, n as int) == Some(i as int));
        }
        // The peak structure of the stated size.
        let spans = peak_spans_exec(n);
        let ghost sv = spans_view(spans@);
        proof {
            lemma_peaks_from_wf(n as int, 0);
            lemma_peak_of_leaf(sv, 0, n as int, i as int);
        }
        let m = spans.len();
        let k = find_peak(&spans, i, Ghost(n as int));
        let sp = spans[k];
        let a = sp.0;
        let p = sp.1;
        proof {
            lemma_spans_wf_index(sv, 0, n as int, k as int);
            assert(sv[k as int] == (a as int, p as int));
        }
        let h = lg_exec(p);
        proof {
            if h >= 63 {
                lemma_p2_mono(63, h as nat);
                lemma_p2_62();
                lemma_p2_lg(p as nat);
                assert(false);
            }
        }
        let h_us = h as usize;
        // The canonical proof length is pinned: the path plus all other
        // peaks, nothing more and nothing less.
        if proof_items.len() < m - 1 || proof_items.len() - (m - 1) != h_us {
            proof {
                assert(itemsv.len() != lg(p as int) + m - 1);
            }
            return false;
        }
        proof {
            assert(itemsv.len() == h_us as int + m - 1);
        }
        // Climb the claimed node up to its peak.
        let ghost ir0 = i as int - a as int;
        let mut acc = node.duplicate();
        let mut cur: u64 = i - a;
        let mut j: usize = 0;
        proof {
            assert(itemsv.take(0) =~= Seq::<NodeV>::empty());
            assert(ir0 / (p2(0) as int) == ir0) by {
                lemma_div_multiples_vanish_fancy(ir0, 0, 1);
            }
        }
        while j < h_us
            invariant
                j <= h_us,
                m >= 1,
                itemsv == nodes_view(proof_items@),
                itemsv.len() == h_us as int + m - 1,
                proof_items@.len() == itemsv.len(),
                acc@ == climb(node@, ir0, itemsv.take(j as int)),
                ir0 >= 0,
                cur as int == ir0 / (p2(j as nat) as int),
            decreases h_us - j,
        {
            let item = &proof_items[j];
            let odd = cur % 2 == 1;
            let prev = acc;
            let next = if odd {
                MergeStrategy::merge(item, &prev)
            } else {
                MergeStrategy::merge(&prev, item)
            };
            proof {
                assert(itemsv.take(j as int + 1) =~= itemsv.take(j as int) + seq![
                    itemsv[j as int],
                ]);
                lemma_climb_concat(node@, ir0, itemsv.take(j as int), seq![itemsv[j as int]]);
                assert(climb(acc@, cur as int, seq![itemsv[j as int]]) == next@) by {
                    reveal_with_fuel(climb, 2);
                    assert(seq![itemsv[j as int]].drop_first() =~= Seq::<NodeV>::empty());
                }
                assert(next@ == climb(node@, ir0, itemsv.take(j as int + 1)));
                lemma_p2_pos(j as nat);
                lemma_div_denominator(ir0, p2(j as nat) as int, 2);
                assert((p2(j as nat) as int) * 2 == p2(j as nat + 1) as int);
            }
            acc = next;
            cur = cur / 2;
            j = j + 1;
        }
        let ghost peak = climb(node@, ir0, itemsv.take(h_us as int));
        let ghost rest = itemsv.skip(h_us as int);
        // Fold the peaks right of ours, rightmost first.
        let rights_cnt = m - 1 - k;
        let total = proof_items.len();
        proof {
            assert(h_us as int + rights_cnt as int <= total as int);
        }
        let rights_end: usize = h_us + rights_cnt;
        let mut idx: usize = h_us;
        let mut acc2: MMRNode;
        if rights_cnt == 0 {
            acc2 = acc;
        } else {
            acc2 = proof_items[idx].duplicate();
            idx = idx + 1;
            proof {
                assert(itemsv.subrange(h_us as int + 1, idx as int) =~= Seq::<NodeV>::empty());
            }
            while idx < rights_end
                invariant
                    itemsv == nodes_view(proof_items@),
                    itemsv.len() == h_us as int + m - 1,
                    proof_items@.len() == itemsv.len(),
                    total == itemsv.len(),
                    rights_cnt == m - 1 - k,
                    rights_end == h_us + rights_cnt,
                    k < m,
                    1 <= rights_cnt,
                    h_us + 1 <= idx <= rights_end,
                    acc2@ == fold_merge(
                        itemsv[h_us as int],
                        itemsv.subrange(h_us as int + 1, idx as int),
                    ),
                decreases rights_end - idx,
            {
                let item = &proof_items[idx];
                proof {
                    assert(itemsv.subrange(h_us as int + 1, idx as int + 1) =~= itemsv.subrange(
                        h_us as int + 1,
                        idx as int,
                    ) + seq![itemsv[idx as int]]);
                    lemma_fold_merge_concat(
                        itemsv[h_us as int],
                        itemsv.subrange(h_us as int + 1, idx as int),
                        seq![itemsv[idx as int]],
                    );
                    reveal_with_fuel(fold_merge, 2);
                    assert(seq![itemsv[idx as int]].drop_first() =~= Seq::<NodeV>::empty());
                }
                acc2 = MergeStrategy::merge(item, &acc2);
                idx = idx + 1;
            }
            acc2 = MergeStrategy::merge(&acc, &acc2);
        }
        let ghost rights_s = rest.take(m - 1 - k);
        let ghost acc0v = acc2@;
        proof {
            if rights_cnt > 0 {
                assert(rights_s[0] == itemsv[h_us as int]);
                assert(rights_s.drop_first() =~= itemsv.subrange(
                    h_us as int + 1,
                    h_us as int + rights_cnt,
                ));
                assert(acc0v == merge_spec(
                    peak,
                    fold_merge(rights_s[0], rights_s.drop_first()),
                ));
            } else {
                assert(acc0v == peak);
            }
            assert(itemsv.subrange(
                (h_us + rights_cnt) as int,
                (h_us + rights_cnt) as int,
            ) =~= Seq::<NodeV>::empty());
        }
        // Fold the peaks left of ours, nearest first.
        while idx < total
            invariant
                itemsv == nodes_view(proof_items@),
                total == itemsv.len(),
                proof_items@.len() == itemsv.len(),
                h_us + rights_cnt <= idx <= total,
                acc2@ == fold_merge(
                    acc0v,
                    itemsv.subrange((h_us + rights_cnt) as int, idx as int),
                ),
            decreases total - idx,
        {
            let item = &proof_items[idx];
            proof {
                assert(itemsv.subrange((h_us + rights_cnt) as int, idx as int + 1)
                    =~= itemsv.subrange((h_us + rights_cnt) as int, idx as int) + seq![
                    itemsv[idx as int],
                ]);
                lemma_fold_merge_concat(
                    acc0v,
                    itemsv.subrange((h_us + rights_cnt) as int, idx as int),
                    seq![itemsv[idx as int]],
                );
                reveal_with_fuel(fold_merge, 2);
                assert(seq![itemsv[idx as int]].drop_first() =~= Seq::<NodeV>::empty());
            }
            acc2 = MergeStrategy::merge(item, &acc2);
            idx = idx + 1;
        }
        let res = acc2.eq_node(root);
        proof {
            let lefts_s = rest.skip(m - 1 - k);
            assert(lefts_s =~= itemsv.subrange((h_us + rights_cnt) as int, total as int));
            assert(acc2@ == bag_with(peak, k as int, m as int, rest));
        }
        res
    }
}

/// The search finds the leaf count of a well-formed size.
pub proof fn lemma_n_of_size_complete(size: int, k: int, n: int)
    requires
        0 <= k <= n,
        mmr_size_spec(n as nat) == size,
    ensures
        n_of_size_rec(size, k) == Some(n),
    decreases n - k,
{
    lemma_mmr_size_ge(k as nat);
    lemma_mmr_size_mono(k as nat, n as nat);
    if k < n {
        lemma_n_of_size_complete(size, k + 1, n);
    }
}

/// The search finds the index of a leaf position.
pub proof fn lemma_i_of_pos_complete(n: int, k: int, i: int)
    requires
        0 <= k <= i < n,
    ensures
        i_of_pos_rec(leaf_pos_spec(i as nat), n, k) == Some(i),
    decreases i - k,
{
    lemma_mmr_size_mono(k as nat, i as nat);
    if k < i {
        lemma_i_of_pos_complete(n, k + 1, i);
    }
}

/// Every peak span is a power of two lying inside `[a, a + n)`.
pub proof fn lemma_spans_wf_index(spans: Seq<(int, int)>, a: int, n: int, j: int)
    requires
        spans_wf(spans, a, n),
        0 <= j < spans.len(),
    ensures
        is_pow2(spans[j].1 as nat),
        1 <= spans[j].1,
        a <= spans[j].0,
        spans[j].0 + spans[j].1 <= a + n,
    decreases j,
{
    if j > 0 {
        lemma_spans_wf_index(spans.drop_first(), a + spans[0].1, n - spans[0].1, j - 1);
    }
}

/// Accumulator round trip, the positive direction: the canonical proof for
/// any leaf of any accumulator verifies against that accumulator's root and
/// size, at that leaf's position, with that leaf as the claimed node.
pub proof fn lemma_proof_round_trip(leaves: Seq<LeafV>, i: int)
    requires
        0 <= i < leaves.len(),
    ensures
        verify_spec(
            root_spec(leaves),
            mmr_size_spec(leaves.len()),
            proof_items_spec(leaves, i),
            leaf_pos_spec(i as nat),
            NodeV::Data(leaves[i]),
        ),
{
    let n = leaves.len() as int;
    let size = mmr_size_spec(leaves.len());
    let spans = peaks_from(n, 0);
    let m = spans.len() as int;
    let nodes = peak_nodes_of(leaves);
    lemma_n_of_size_complete(size, 0, n);
    lemma_i_of_pos_complete(n, 0, i);
    lemma_peaks_from_wf(n, 0);
    lemma_peak_of_leaf(spans, 0, n, i);
    let k = peak_of_leaf(spans, i);
    lemma_spans_wf_index(spans, 0, n, k);
    let a = spans[k].0;
    let p = spans[k].1;
    let h = lg(p) as int;
    lemma_path_climb(leaves, a, p, i - a);
    let pth = path(leaves, a, p, i - a);
    let rights = Seq::new(
        (m - 1 - k) as nat,
        |x: int| subtree(leaves, spans[m - 1 - x].0, spans[m - 1 - x].1),
    );
    let lefts = Seq::new(
        k as nat,
        |x: int| subtree(leaves, spans[k - 1 - x].0, spans[k - 1 - x].1),
    );
    let items = proof_items_spec(leaves, i);
    assert(items == pth + rights + lefts);
    assert(items.len() == h + m - 1);
    assert(items.take(h) =~= pth);
    let rest = items.skip(h);
    assert(rest =~= rights + lefts);
    assert(climb(NodeV::Data(leaves[a + (i - a)]), i - a, pth) == subtree(leaves, a, p));
    assert(leaves[a + (i - a)] == leaves[i]);
    let peak = climb(NodeV::Data(leaves[i]), i - a, items.take(h));
    assert(peak == subtree(leaves, a, p));
    assert(nodes.len() == m);
    assert(forall|j: int| 0 <= j < m ==> nodes[j] == subtree(leaves, spans[j].0, spans[j].1));
    assert(peak == nodes[k]);
    assert(rest.take(m - 1 - k) =~= rights);
    assert(rest.skip(m - 1 - k) =~= lefts);
    // Fold the right peaks into the bag of everything right of `k`.
    let acc0 = if k == m - 1 {
        peak
    } else {
        merge_spec(peak, fold_merge(rights[0], rights.drop_first()))
    };
    if k < m - 1 {
        assert(rights[0] == nodes[m - 1]);
        assert(bag(nodes.skip(m - 1)) == nodes[m - 1]) by {
            assert(nodes.skip(m - 1).len() == 1);
            assert(nodes.skip(m - 1)[0] == nodes[m - 1]);
        }
        if k < m - 2 {
            assert(rights.drop_first() =~= rseg(nodes, m - 2, k + 1));
            lemma_fold_rseg(nodes, m - 2, k + 1);
            assert(fold_merge(rights[0], rights.drop_first()) == bag(nodes.skip(k + 1)));
        } else {
            assert(rights.drop_first() =~= Seq::<NodeV>::empty());
            assert(fold_merge(rights[0], rights.drop_first()) == bag(nodes.skip(k + 1)));
        }
        lemma_bag_skip(nodes, k);
        assert(acc0 == bag(nodes.skip(k)));
    } else {
        assert(acc0 == nodes[m - 1]);
        assert(nodes.skip(m - 1).len() == 1);
        assert(nodes.skip(m - 1)[0] == nodes[m - 1]);
        assert(acc0 == bag(nodes.skip(k)));
    }
    // Fold the left peaks down to the full bag.
    if k > 0 {
        assert(lefts =~= rseg(nodes, k - 1, 0));
        lemma_fold_rseg(nodes, k - 1, 0);
        assert(fold_merge(acc0, lefts) == bag(nodes.skip(0)));
    } else {
        assert(lefts =~= Seq::<NodeV>::empty());
        assert(fold_merge(acc0, lefts) == acc0);
    }
    assert(nodes.skip(0) =~= nodes);
    assert(bag_with(peak, k, m, rest) == bag(nodes));
}

} // verus!
