use vstd::prelude::*;

use crate::sma::sum_of;

verus! {

/// Two to the power `exp`.
spec fn pow2(exp: nat) -> nat
    decreases exp,
{
    if exp == 0 {
        1
    } else {
        2 * pow2((exp - 1) as nat)
    }
}

proof fn lemma_pow2_positive(exp: nat)
    ensures
        pow2(exp) >= 1,
    decreases exp,
{
    if exp > 0 {
        lemma_pow2_positive((exp - 1) as nat);
    }
}

proof fn lemma_pow2_double_within(exp: nat, cap: nat)
    requires
        exp < cap,
    ensures
        2 * pow2(exp) <= pow2(cap),
    decreases cap,
{
    lemma_pow2_positive(exp);
    if exp + 1 < cap {
        lemma_pow2_double_within(exp, (cap - 1) as nat);
        lemma_pow2_positive((cap - 1) as nat);
    }
}

/// Whether `anc` lies on the path from `node` up to the root (index 0),
/// `node` itself included. The parent of node `j` is node `(j - 1) / 2`.
spec fn on_root_path(node: int, anc: int) -> bool
    decreases node,
{
    if node == anc {
        true
    } else if node <= 0 {
        false
    } else {
        on_root_path((node - 1) / 2, anc)
    }
}

/// A node's parent lies on its path to the root.
proof fn lemma_on_root_path_parent(node: int, anc: int)
    requires
        node > 0,
        anc == (node - 1) / 2,
    ensures
        on_root_path(node, anc),
{
    assert(on_root_path(anc, anc));
}

/// Whatever lies on the parent's path to the root, other than the node
/// itself, lies on the node's path as well, and conversely.
proof fn lemma_on_root_path_step(node: int, anc: int)
    requires
        node > 0,
        anc != node,
        on_root_path(node, anc),
    ensures
        on_root_path((node - 1) / 2, anc),
{
}

/// The number of leaves in the subtree rooted at `node`, in a heap-shaped
/// complete binary tree with `padded` leaves: nodes `0 .. padded - 1` are
/// internal with children `2j + 1` and `2j + 2`, and nodes
/// `padded - 1 .. 2 * padded - 1` are leaves.
spec fn subtree_width(padded: int, node: int) -> int
    decreases 2 * padded - node,
{
    if node < 0 || node >= padded - 1 {
        1
    } else {
        subtree_width(padded, 2 * node + 1) + subtree_width(padded, 2 * node + 2)
    }
}

/// The node values as mathematical integers.
spec fn int_values(s: Seq<i128>) -> Seq<int> {
    s.map_values(|v: i128| v as int)
}

/// One internal node holding exactly the sum of its two children.
spec fn node_matches_children(s: Seq<int>, j: int) -> bool {
    s[j] == s[2 * j + 1] + s[2 * j + 2]
}

/// Every internal node holds the sum of its two children.
spec fn parents_hold(s: Seq<int>, padded: int) -> bool {
    forall|j: int| 0 <= j < padded - 1 ==> #[trigger] node_matches_children(s, j)
}

/// One node's magnitude bounded by the width of its subtree times the
/// magnitude of one sample.
spec fn node_within_width(s: Seq<int>, padded: int, j: int) -> bool {
    -(subtree_width(padded, j) * 0x8000_0000_0000_0000) <= s[j] <= subtree_width(padded, j)
        * 0x8000_0000_0000_0000
}

/// Every node's magnitude bounded by the width of its subtree.
spec fn nodes_within_width(s: Seq<int>, padded: int) -> bool {
    forall|j: int| 0 <= j < s.len() ==> #[trigger] node_within_width(s, padded, j)
}

/// Sum of the values at node indices `lo .. hi`.
spec fn range_sum(s: Seq<int>, lo: int, hi: int) -> int
    decreases hi - lo,
{
    if lo >= hi {
        0
    } else {
        s[lo] + range_sum(s, lo + 1, hi)
    }
}

proof fn lemma_range_sum_split(s: Seq<int>, lo: int, mid: int, hi: int)
    requires
        lo <= mid <= hi,
    ensures
        range_sum(s, lo, hi) == range_sum(s, lo, mid) + range_sum(s, mid, hi),
    decreases mid - lo,
{
    if lo < mid {
        lemma_range_sum_split(s, lo + 1, mid, hi);
    }
}

proof fn lemma_range_sum_of_zeros(s: Seq<int>, lo: int, hi: int)
    requires
        forall|j: int| lo <= j < hi ==> #[trigger] s[j] == 0,
    ensures
        range_sum(s, lo, hi) == 0,
    decreases hi - lo,
{
    if lo < hi {
        lemma_range_sum_of_zeros(s, lo + 1, hi);
    }
}

proof fn lemma_range_sum_of_ones(s: Seq<int>, lo: int, hi: int)
    requires
        lo <= hi,
        forall|j: int| lo <= j < hi ==> #[trigger] s[j] == 1,
    ensures
        range_sum(s, lo, hi) == hi - lo,
    decreases hi - lo,
{
    if lo < hi {
        lemma_range_sum_of_ones(s, lo + 1, hi);
    }
}

/// A block of internal nodes sums to the same value as the block of all
/// their children.
proof fn lemma_range_sum_children(s: Seq<int>, padded: int, lo: int, hi: int)
    requires
        parents_hold(s, padded),
        0 <= lo <= hi <= padded - 1,
    ensures
        range_sum(s, lo, hi) == range_sum(s, 2 * lo + 1, 2 * hi + 1),
    decreases hi - lo,
{
    if lo < hi {
        lemma_range_sum_children(s, padded, lo + 1, hi);
        assert(node_matches_children(s, lo));
        assert(range_sum(s, 2 * lo + 1, 2 * hi + 1) == s[2 * lo + 1] + range_sum(
            s,
            2 * lo + 2,
            2 * hi + 1,
        ));
        assert(range_sum(s, 2 * lo + 2, 2 * hi + 1) == s[2 * lo + 2] + range_sum(
            s,
            2 * lo + 3,
            2 * hi + 1,
        ));
    }
}

/// Each level of the tree sums to the same value as the level of all
/// leaves.
proof fn lemma_level_sum(s: Seq<int>, padded: int, height: nat, depth: nat)
    requires
        padded == pow2(height),
        parents_hold(s, padded),
        depth <= height,
    ensures
        range_sum(s, pow2(depth) - 1, 2 * pow2(depth) - 1) == range_sum(s, padded - 1, 2 * padded - 1),
    decreases height - depth,
{
    if depth < height {
        lemma_pow2_positive(depth);
        lemma_pow2_double_within(depth, height);
        lemma_range_sum_children(s, padded, pow2(depth) - 1, 2 * pow2(depth) - 1);
        assert(2 * (pow2(depth) - 1) + 1 == pow2((depth + 1) as nat) - 1);
        assert(2 * (2 * pow2(depth) - 1) + 1 == 2 * pow2((depth + 1) as nat) - 1);
        lemma_level_sum(s, padded, height, (depth + 1) as nat);
    }
}

/// If every internal node holds the sum of its children, the root holds
/// the sum of all leaves.
proof fn lemma_root_eq_leaf_range(s: Seq<int>, padded: int, height: nat)
    requires
        padded == pow2(height),
        parents_hold(s, padded),
    ensures
        s[0] == range_sum(s, padded - 1, 2 * padded - 1),
{
    lemma_level_sum(s, padded, height, 0);
    assert(range_sum(s, 0, 1) == s[0] + range_sum(s, 1, 1));
}

proof fn lemma_width_positive(padded: int, node: int)
    ensures
        subtree_width(padded, node) >= 1,
    decreases 2 * padded - node,
{
    if !(node < 0 || node >= padded - 1) {
        lemma_width_positive(padded, 2 * node + 1);
        lemma_width_positive(padded, 2 * node + 2);
    }
}

/// The root's subtree is the widest.
proof fn lemma_width_within_root(padded: int, node: int)
    requires
        0 <= node < 2 * padded - 1,
    ensures
        subtree_width(padded, node) <= subtree_width(padded, 0),
    decreases node,
{
    if node > 0 {
        let parent = (node - 1) / 2;
        assert(node == 2 * parent + 1 || node == 2 * parent + 2);
        assert(0 <= parent < padded - 1);
        lemma_width_positive(padded, 2 * parent + 1);
        lemma_width_positive(padded, 2 * parent + 2);
        assert(subtree_width(padded, node) <= subtree_width(padded, parent));
        lemma_width_within_root(padded, parent);
    }
}

/// The root's subtree holds exactly all `padded` leaves.
proof fn lemma_width_total(padded: int, height: nat)
    requires
        padded == pow2(height),
    ensures
        subtree_width(padded, 0) == padded,
{
    lemma_pow2_positive(height);
    let widths = Seq::new((2 * padded - 1) as nat, |j: int| subtree_width(padded, j));
    assert forall|j: int| 0 <= j < padded - 1 implies #[trigger] node_matches_children(
        widths,
        j,
    ) by {
        assert(widths[j] == subtree_width(padded, j));
        assert(widths[2 * j + 1] == subtree_width(padded, 2 * j + 1));
        assert(widths[2 * j + 2] == subtree_width(padded, 2 * j + 2));
    }
    lemma_root_eq_leaf_range(widths, padded, height);
    assert forall|j: int| padded - 1 <= j < 2 * padded - 1 implies #[trigger] widths[j] == 1 by {
        assert(subtree_width(padded, j) == 1);
    }
    lemma_range_sum_of_ones(widths, padded - 1, 2 * padded - 1);
    assert(widths[0] == subtree_width(padded, 0));
}

/// A complete binary tree of partial sums over a fixed set of leaf slots.
///
/// Each internal node always holds the sum of its two children, so the
/// root holds the total of all leaves and can be read in constant time,
/// while overwriting one leaf only re-sums the nodes on that leaf's path
/// to the root. Every ancestor is recomputed freshly from its two current
/// children — never adjusted incrementally — which is what keeps rounding
/// error from accumulating for inexact sample types; for the `i64` samples
/// here every sum is exact.
///
/// The leaf slots are padded up to the next power of two; the padding
/// leaves stay zero forever.
pub struct SumTree {
    nodes: Vec<i128>,
    num_leaf_nodes: usize,
    padded_len: usize,
    height: Ghost<nat>,
    zero: i64,
}

impl View for SumTree {
    type V = Seq<int>;

    /// The current contents of the leaf slots, in slot order.
    closed spec fn view(&self) -> Seq<int> {
        Seq::new(
            self.num_leaf_nodes as nat,
            |i: int| self.nodes@[self.padded_len - 1 + i] as int,
        )
    }
}

impl SumTree {
    /// The fixed number of leaf slots.
    pub closed spec fn capacity(&self) -> nat {
        self.num_leaf_nodes as nat
    }

    /// The zero value supplied at construction.
    pub closed spec fn zero_value(&self) -> int {
        self.zero as int
    }

    /// The node values as mathematical integers.
    closed spec fn nodes_int(&self) -> Seq<int> {
        int_values(self.nodes@)
    }

    /// Internal well-formedness.
    pub closed spec fn wf(&self) -> bool {
        if self.num_leaf_nodes == 0 {
            self.nodes@.len() == 0
        } else {
            &&& self.padded_len == pow2(self.height@)
            &&& self.num_leaf_nodes <= self.padded_len
            &&& self.padded_len <= usize::MAX / 4
            &&& self.padded_len <= 0x4000_0000_0000_0000
            &&& self.nodes@.len() == 2 * self.padded_len - 1
            &&& parents_hold(self.nodes_int(), self.padded_len as int)
            &&& nodes_within_width(self.nodes_int(), self.padded_len as int)
            &&& forall|i: int|
                self.padded_len - 1 <= i < 2 * self.padded_len - 1 ==> i64::MIN
                    <= #[trigger] self.nodes@[i] <= i64::MAX
            &&& forall|i: int|
                self.num_leaf_nodes <= i < self.padded_len ==> #[trigger] self.nodes@[
                    self.padded_len - 1 + i
                ] == 0
        }
    }

    /// There is one leaf slot for each unit of capacity.
    pub proof fn lemma_view_len(&self)
        ensures
            self@.len() == self.capacity(),
    {
    }

    /// Every leaf slot holds a value in the range of the sample type.
    pub proof fn lemma_leaves_in_range(&self)
        requires
            self.wf(),
        ensures
            forall|i: int|
                0 <= i < self@.len() ==> i64::MIN <= #[trigger] self@[i] <= i64::MAX,
    {
    }

    /// Constructs a tree of `num_leaf_nodes` leaf slots, each initialized
    /// to `zero`. A capacity of zero is allowed; the root sum is then
    /// `zero` itself.
    pub fn new(zero: i64, num_leaf_nodes: usize) -> (tree: Self)
        requires
            num_leaf_nodes <= usize::MAX / 8,
        ensures
            tree.wf(),
            tree.capacity() == num_leaf_nodes,
            tree.zero_value() == zero as int,
            tree@ == Seq::new(num_leaf_nodes as nat, |i: int| zero as int),
    {
        if num_leaf_nodes == 0 {
            let tree = SumTree {
                nodes: Vec::new(),
                num_leaf_nodes: 0,
                padded_len: 0,
                height: Ghost(0),
                zero,
            };
            proof {
                assert(tree@ =~= Seq::new(num_leaf_nodes as nat, |i: int| zero as int));
            }
            return tree;
        }

        let mut padded: usize = 1;
        let ghost mut height: nat = 0;
        while padded < num_leaf_nodes
            invariant
                1 <= padded,
                padded == pow2(height),
                padded <= 2 * num_leaf_nodes,
                num_leaf_nodes <= usize::MAX / 8,
            decreases 2 * num_leaf_nodes - padded,
        {
            padded = 2 * padded;
            proof {
                height = height + 1;
            }
        }
        assert(num_leaf_nodes <= padded);
        assert(padded <= usize::MAX / 4);
        assert(padded <= 0x4000_0000_0000_0000);

        let num_nodes = 2 * padded - 1;
        let mut nodes: Vec<i128> = Vec::new();
        let mut i: usize = 0;
        while i < num_nodes
            invariant
                i <= num_nodes,
                nodes@.len() == i,
                forall|k: int| 0 <= k < i ==> #[trigger] nodes@[k] == 0,
            decreases num_nodes - i,
        {
            nodes.push(0i128);
            i = i + 1;
        }

        let mut slot: usize = 0;
        while slot < num_leaf_nodes
            invariant
                slot <= num_leaf_nodes,
                1 <= padded,
                padded <= usize::MAX / 4,
                padded <= 0x4000_0000_0000_0000,
                num_leaf_nodes <= padded,
                nodes@.len() == 2 * padded - 1,
                forall|k: int|
                    padded - 1 <= k < padded - 1 + slot ==> #[trigger] nodes@[k] == zero as i128,
                forall|k: int|
                    (0 <= k < padded - 1 || padded - 1 + slot <= k < 2 * padded - 1)
                        ==> #[trigger] nodes@[k] == 0,
            decreases num_leaf_nodes - slot,
        {
            nodes.set(padded - 1 + slot, zero as i128);
            slot = slot + 1;
        }

        let ghost leaf_values = nodes@;
        proof {
            lemma_width_total(padded as int, height);
            assert forall|k: int| 0 <= k < int_values(nodes@).len() implies
                #[trigger] node_within_width(int_values(nodes@), padded as int, k) by {
                lemma_width_positive(padded as int, k);
            }
        }

        let mut j = padded - 1;
        while j > 0
            invariant
                0 <= j <= padded - 1,
                1 <= padded,
                padded == pow2(height),
                padded <= usize::MAX / 4,
                padded <= 0x4000_0000_0000_0000,
                subtree_width(padded as int, 0) == padded,
                nodes@.len() == 2 * padded - 1,
                forall|k: int|
                    padded - 1 <= k < 2 * padded - 1 ==> #[trigger] nodes@[k] == leaf_values[k],
                forall|k: int|
                    padded - 1 <= k < 2 * padded - 1 ==> i64::MIN <= #[trigger] nodes@[k]
                        <= i64::MAX,
                forall|k: int|
                    j <= k < padded - 1 ==> #[trigger] node_matches_children(
                        int_values(nodes@),
                        k,
                    ),
                nodes_within_width(int_values(nodes@), padded as int),
            decreases j,
        {
            j = j - 1;
            let left = nodes[2 * j + 1];
            let right = nodes[2 * j + 2];
            let ghost pre = int_values(nodes@);
            proof {
                assert(node_within_width(pre, padded as int, 2 * j + 1));
                assert(node_within_width(pre, padded as int, 2 * j + 2));
                lemma_width_within_root(padded as int, 2 * j + 1);
                lemma_width_within_root(padded as int, 2 * j + 2);
                lemma_width_positive(padded as int, 2 * j + 1);
                lemma_width_positive(padded as int, 2 * j + 2);
            }
            nodes.set(j, left + right);
            proof {
                let ints = int_values(nodes@);
                assert(ints =~= pre.update(j as int, pre[2 * j + 1] + pre[2 * j + 2]));
                assert forall|k: int| j <= k < padded - 1 implies #[trigger] node_matches_children(
                    ints,
                    k,
                ) by {
                    assert(ints[2 * k + 1] == pre[2 * k + 1]);
                    assert(ints[2 * k + 2] == pre[2 * k + 2]);
                    if k > j {
                        assert(node_matches_children(pre, k));
                        assert(ints[k] == pre[k]);
                    }
                }
                assert forall|k: int| 0 <= k < ints.len() implies #[trigger] node_within_width(
                    ints,
                    padded as int,
                    k,
                ) by {
                    assert(node_within_width(pre, padded as int, k));
                    if k == j {
                        assert(subtree_width(padded as int, j as int) == subtree_width(
                            padded as int,
                            2 * j as int + 1,
                        ) + subtree_width(padded as int, 2 * j as int + 2));
                    } else {
                        assert(ints[k] == pre[k]);
                    }
                }
            }
        }

        let tree = SumTree {
            nodes,
            num_leaf_nodes,
            padded_len: padded,
            height: Ghost(height),
            zero,
        };
        proof {
            assert(tree@ =~= Seq::new(num_leaf_nodes as nat, |i: int| zero as int));
        }
        tree
    }

    /// Overwrites the leaf at `leaf_node_idx` with `new_sample`, then
    /// recomputes every ancestor on the path from that leaf to the root by
    /// re-summing the ancestor's two children. No other node changes.
    pub fn update_leaf_node_sample(&mut self, leaf_node_idx: usize, new_sample: i64)
        requires
            old(self).wf(),
            leaf_node_idx < old(self).capacity(),
        ensures
            final(self).wf(),
            final(self).capacity() == old(self).capacity(),
            final(self).zero_value() == old(self).zero_value(),
            final(self)@ == old(self)@.update(leaf_node_idx as int, new_sample as int),
    {
        let padded = self.padded_len;
        let ghost leaf_pos = padded - 1 + leaf_node_idx as int;
        let mut j = padded - 1 + leaf_node_idx;
        self.nodes.set(j, new_sample as i128);
        proof {
            let ints = self.nodes_int();
            assert forall|k: int|
                0 <= k < padded - 1 implies (#[trigger] node_matches_children(ints, k) || (
            on_root_path(j as int, k) && k != j)) by {
                if 2 * k + 1 == leaf_pos || 2 * k + 2 == leaf_pos {
                    assert(k == (leaf_pos - 1) / 2);
                    lemma_on_root_path_parent(leaf_pos, k);
                } else {
                    assert(node_matches_children(old(self).nodes_int(), k));
                    assert(ints[k] == old(self).nodes_int()[k]);
                    assert(ints[2 * k + 1] == old(self).nodes_int()[2 * k + 1]);
                    assert(ints[2 * k + 2] == old(self).nodes_int()[2 * k + 2]);
                }
            }
            assert forall|k: int| 0 <= k < ints.len() implies #[trigger] node_within_width(
                ints,
                padded as int,
                k,
            ) by {
                lemma_width_positive(padded as int, k);
                if k != leaf_pos {
                    assert(node_within_width(old(self).nodes_int(), padded as int, k));
                }
            }
        }
        while j > 0
            invariant
                0 <= j < 2 * padded - 1,
                1 <= padded,
                padded == pow2(self.height@),
                padded <= usize::MAX / 4,
                padded <= 0x4000_0000_0000_0000,
                self.padded_len == padded,
                self.num_leaf_nodes == old(self).num_leaf_nodes,
                self.zero == old(self).zero,
                self.height == old(self).height,
                self.nodes@.len() == 2 * padded - 1,
                leaf_node_idx < self.num_leaf_nodes,
                self.num_leaf_nodes <= padded,
                leaf_pos == padded - 1 + leaf_node_idx as int,
                self.nodes@[leaf_pos] == new_sample as i128,
                forall|k: int|
                    padded - 1 <= k < 2 * padded - 1 && k != leaf_pos ==> #[trigger] self.nodes@[k]
                        == old(self).nodes@[k],
                forall|k: int|
                    0 <= k < padded - 1 ==> (#[trigger] node_matches_children(
                        self.nodes_int(),
                        k,
                    ) || (on_root_path(j as int, k) && k != j)),
                nodes_within_width(self.nodes_int(), padded as int),
            decreases j,
        {
            let parent = (j - 1) / 2;
            proof {
                assert(j == 2 * parent + 1 || j == 2 * parent + 2);
                assert(0 <= parent < padded - 1);
                let ints = self.nodes_int();
                assert(node_within_width(ints, padded as int, 2 * parent + 1));
                assert(node_within_width(ints, padded as int, 2 * parent + 2));
                lemma_width_within_root(padded as int, 2 * parent + 1);
                lemma_width_within_root(padded as int, 2 * parent + 2);
                lemma_width_positive(padded as int, 2 * parent + 1);
                lemma_width_positive(padded as int, 2 * parent + 2);
                lemma_width_total(padded as int, self.height@);
            }
            let left = self.nodes[2 * parent + 1];
            let right = self.nodes[2 * parent + 2];
            let ghost pre = self.nodes_int();
            let ghost pre_raw = self.nodes@;
            let ghost j_pre = j as int;
            self.nodes.set(parent, left + right);
            proof {
                let ints = self.nodes_int();
                assert(self.nodes@ =~= pre_raw.update(parent as int, (left + right) as i128));
                assert(ints =~= pre.update(parent as int, pre[2 * parent + 1] + pre[2 * parent
                    + 2]));
                assert(parent as int != leaf_pos);
                assert(self.nodes@[leaf_pos] == pre_raw[leaf_pos]);
                assert forall|k: int|
                    padded - 1 <= k < 2 * padded - 1 && k != leaf_pos implies self.nodes@[k]
                    == old(self).nodes@[k] by {
                    assert(k != parent as int);
                    assert(self.nodes@[k] == pre_raw[k]);
                }
                assert(node_matches_children(ints, parent as int));
                assert forall|k: int|
                    0 <= k < padded - 1 implies (#[trigger] node_matches_children(ints, k) || (
                on_root_path(parent as int, k) && k != parent)) by {
                    if k != parent && !node_matches_children(ints, k) {
                        if 2 * k + 1 == parent || 2 * k + 2 == parent {
                            assert(k == (parent as int - 1) / 2);
                            lemma_on_root_path_parent(parent as int, k);
                        } else {
                            assert(ints[k] == pre[k]);
                            assert(ints[2 * k + 1] == pre[2 * k + 1]);
                            assert(ints[2 * k + 2] == pre[2 * k + 2]);
                            assert(!node_matches_children(pre, k));
                            assert(on_root_path(j_pre, k) && k != j_pre);
                            assert((j_pre - 1) / 2 == parent as int);
                            lemma_on_root_path_step(j_pre, k);
                        }
                    }
                }
                assert forall|k: int| 0 <= k < ints.len() implies #[trigger] node_within_width(
                    ints,
                    padded as int,
                    k,
                ) by {
                    if k == parent {
                        assert(subtree_width(padded as int, parent as int) == subtree_width(
                            padded as int,
                            2 * parent + 1,
                        ) + subtree_width(padded as int, 2 * parent + 2));
                    } else {
                        assert(node_within_width(pre, padded as int, k));
                        assert(ints[k] == pre[k]);
                    }
                }
            }
            j = parent;
        }
        proof {
            assert forall|k: int| 0 <= k < padded - 1 implies #[trigger] node_matches_children(
                self.nodes_int(),
                k,
            ) by {
                assert(!(on_root_path(0, k) && k != 0));
            }
            assert(self@ =~= old(self)@.update(leaf_node_idx as int, new_sample as int));
        }
    }

    /// Returns the root sum: the total of all leaf slots, or the zero
    /// value if the tree has no leaf slots.
    pub fn get_root_sum(&self) -> (sum: i128)
        requires
            self.wf(),
        ensures
            self.capacity() > 0 ==> sum as int == sum_of(self@),
            self.capacity() == 0 ==> sum as int == self.zero_value(),
    {
        if self.num_leaf_nodes == 0 {
            self.zero as i128
        } else {
            proof {
                let ints = self.nodes_int();
                let padded = self.padded_len as int;
                let num = self.num_leaf_nodes as int;
                lemma_root_eq_leaf_range(ints, padded, self.height@);
                lemma_range_sum_split(ints, padded - 1, padded - 1 + num, 2 * padded - 1);
                assert forall|k: int| padded - 1 + num <= k < 2 * padded - 1 implies #[trigger] ints[k]
                    == 0 by {
                    assert(self.nodes@[padded - 1 + (k - (padded - 1))] == 0);
                }
                lemma_range_sum_of_zeros(ints, padded - 1 + num, 2 * padded - 1);
                lemma_range_sum_eq_sum_of(ints, padded - 1, num);
                assert(self@ =~= Seq::new(num as nat, |i: int| ints[padded - 1 + i]));
            }
            self.nodes[0]
        }
    }

    /// Returns the current value of the leaf slot `leaf_node_idx`.
    pub fn get_leaf_node_sum(&self, leaf_node_idx: usize) -> (sum: i64)
        requires
            self.wf(),
            leaf_node_idx < self.capacity(),
        ensures
            sum as int == self@[leaf_node_idx as int],
    {
        self.nodes[self.padded_len - 1 + leaf_node_idx] as i64
    }

    /// Returns the current contents of all leaf slots, in slot order.
    pub fn get_leaf_nodes_slice(&self) -> (leaves: Vec<i64>)
        requires
            self.wf(),
        ensures
            leaves@.len() == self@.len(),
            leaves@.map_values(|v: i64| v as int) == self@,
    {
        let mut leaves: Vec<i64> = Vec::new();
        let mut i: usize = 0;
        while i < self.num_leaf_nodes
            invariant
                self.wf(),
                i <= self.num_leaf_nodes,
                leaves@.len() == i,
                forall|k: int| 0 <= k < i ==> #[trigger] leaves@[k] as int == self@[k],
            decreases self.num_leaf_nodes - i,
        {
            leaves.push(self.nodes[self.padded_len - 1 + i] as i64);
            i = i + 1;
        }
        proof {
            assert(leaves@.map_values(|v: i64| v as int) =~= self@);
        }
        leaves
    }
}

/// The sum of a contiguous block of `count` node values, read off as a
/// sequence, equals the block's range sum.
proof fn lemma_range_sum_eq_sum_of(s: Seq<int>, offset: int, count: int)
    requires
        0 <= offset,
        0 <= count,
        offset + count <= s.len(),
    ensures
        sum_of(Seq::new(count as nat, |i: int| s[offset + i])) == range_sum(s, offset, offset + count),
    decreases count,
{
    let sub = Seq::new(count as nat, |i: int| s[offset + i]);
    if count > 0 {
        lemma_range_sum_eq_sum_of(s, offset + 1, count - 1);
        assert(sub.drop_first() =~= Seq::new((count - 1) as nat, |i: int| s[offset + 1 + i]));
    }
}

} // verus!
