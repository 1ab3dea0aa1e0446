use vstd::prelude::*;

use crate::common::cast_to_divisor_type;
use crate::common::divide_sum_by_count;
use crate::ring_buffer::RingBuffer;
use crate::sma::lemma_sum_of_bounds;
use crate::sma::lemma_sum_of_push;
use crate::sma::lemma_sum_of_update;
use crate::sma::sum_of;
use crate::sma::window_after_add;
use crate::sma::SMA;
use crate::sum_tree::SumTree;

verus! {

/// A moving average that delegates its bookkeeping to a [`SumTree`]:
/// logarithmic writes, constant-time reads, and — for inexact sample
/// types — rounding error bounded by the depth of the tree instead of
/// growing with the length of the stream. A queue records which tree
/// slot holds each window position, newest at the front; when the window
/// is full, the slot of the evicted oldest sample is reused for the new
/// one.
pub struct SumTreeMovingAverage {
    samples: RingBuffer<usize>,
    sum_tree: SumTree,
    zero: i64,
}

impl SMA for SumTreeMovingAverage {
    closed spec fn window(&self) -> Seq<int> {
        Seq::new(self.samples@.len(), |k: int| self.sum_tree@[self.samples@[k] as int])
    }

    closed spec fn window_size(&self) -> nat {
        self.samples.capacity()
    }

    closed spec fn zero_sample(&self) -> int {
        self.zero as int
    }

    closed spec fn wf(&self) -> bool {
        &&& self.samples.wf()
        &&& self.sum_tree.wf()
        &&& self.samples.capacity() == self.sum_tree.capacity()
        &&& self.samples.capacity() <= usize::MAX / 8
        &&& forall|k: int|
            0 <= k < self.samples@.len() ==> (#[trigger] self.samples@[k]) < self.samples@.len()
        &&& forall|a: int, b: int|
            0 <= a < b < self.samples@.len() ==> self.samples@[a] != self.samples@[b]
        &&& forall|s: int|
            self.samples@.len() <= s < self.sum_tree.capacity() ==> #[trigger] self.sum_tree@[s]
                == 0
        &&& sum_of(self.sum_tree@) == sum_of(self.window())
        &&& self.sum_tree@.subrange(0, self.samples@.len() as int).to_multiset()
            == self.window().to_multiset()
    }

    proof fn lemma_window_within_capacity(&self) {
        self.samples.lemma_len_within_capacity();
    }

    fn add_sample(&mut self, new_sample: i64) {
        let window_size = self.samples.get_capacity();
        if window_size == 0 {
            return ;
        }
        proof {
            self.samples.lemma_len_within_capacity();
            self.sum_tree.lemma_view_len();
        }
        let num_samples = self.samples.len();
        let ghost w = self.window();
        let ghost q = self.samples@;
        let ghost t = self.sum_tree@;
        let tree_node_idx: usize = if num_samples < window_size {
            num_samples
        } else {
            match self.samples.pop_back() {
                Some(oldest_idx) => oldest_idx,
                None => {
                    proof {
                        assert(false);
                    }
                    0
                },
            }
        };
        self.sum_tree.update_leaf_node_sample(tree_node_idx, new_sample);
        self.samples.push_front(tree_node_idx);
        proof {
            broadcast use vstd::seq_lib::group_to_multiset_ensures;
            broadcast use vstd::multiset::group_multiset_axioms;

            let v = new_sample as int;
            let num = w.len() as int;
            if num < window_size {
                assert(self.samples@ =~= q.push(num as usize));
                assert forall|k: int| 0 <= k < num + 1 implies self.window()[k]
                    == w.push(v)[k] by {
                    if k < num {
                        assert(q[k] < num);
                        assert(self.sum_tree@[q[k] as int] == t[q[k] as int]);
                    }
                }
                assert(self.window() =~= w.push(v));
                assert(self.window() =~= window_after_add(w, old(self).window_size(), v));
                lemma_sum_of_update(t, num, v);
                lemma_sum_of_push(w, v);
                assert(t[num] == 0);
                assert(self.sum_tree@.subrange(0, num + 1) =~= t.subrange(0, num).push(v));
                assert(t.subrange(0, num).push(v).to_multiset() == t.subrange(
                    0,
                    num,
                ).to_multiset().insert(v));
                assert(self.window().to_multiset() == w.to_multiset().insert(v)) by {
                    assert(self.window() =~= w.push(v));
                }
            } else {
                let j = q[0] as int;
                assert(q[0] < num);
                assert(self.samples@ =~= q.drop_first().push(q[0]));
                assert forall|k: int| 0 <= k < num implies self.window()[k]
                    == w.drop_first().push(v)[k] by {
                    if k < num - 1 {
                        assert(q[k + 1] != q[0]);
                        assert(self.sum_tree@[q[k + 1] as int] == t[q[k + 1] as int]);
                    }
                }
                assert(self.window() =~= w.drop_first().push(v));
                assert(self.window() =~= window_after_add(w, old(self).window_size(), v));
                lemma_sum_of_update(t, j, v);
                assert(w[0] == t[j]);
                assert(sum_of(w) == w[0] + sum_of(w.drop_first()));
                lemma_sum_of_push(w.drop_first(), v);
                let sub = t.subrange(0, num);
                assert(self.sum_tree@.subrange(0, num) =~= sub.update(j, v));
                assert(sub.update(j, v).to_multiset() == sub.to_multiset().insert(v).remove(
                    sub[j],
                ));
                assert(sub[j] == w[0]);
                assert(w.remove(0) =~= w.drop_first());
                assert(w.drop_first().to_multiset() == w.to_multiset().remove(w[0]));
                assert(self.window().to_multiset() == w.drop_first().to_multiset().insert(v))
                    by {
                    assert(self.window() =~= w.drop_first().push(v));
                }
                assert(w.to_multiset().contains(w[0]));
                assert(sub.to_multiset().insert(v).remove(w[0]) =~= sub.to_multiset().remove(
                    w[0],
                ).insert(v));
            }
        }
    }

    fn get_average(&self) -> (average: i64) {
        let num_samples = self.samples.len();
        if num_samples == 0 {
            return self.zero;
        }
        proof {
            self.samples.lemma_len_within_capacity();
            self.sum_tree.lemma_view_len();
            self.sum_tree.lemma_leaves_in_range();
            assert forall|k: int| 0 <= k < self.window().len() implies i64::MIN
                <= #[trigger] self.window()[k] <= i64::MAX by {
                assert(self.samples@[k] < self.samples@.len());
                assert(self.window()[k] == self.sum_tree@[self.samples@[k] as int]);
            }
            lemma_sum_of_bounds(self.window(), i64::MIN as int, i64::MAX as int);
        }
        let divisor = cast_to_divisor_type(num_samples);
        let root_sum = self.sum_tree.get_root_sum();
        divide_sum_by_count(root_sum, divisor)
    }

    fn get_most_recent_sample(&self) -> (sample: Option<i64>) {
        proof {
            self.samples.lemma_len_within_capacity();
            self.sum_tree.lemma_view_len();
        }
        match self.samples.front() {
            Some(newest_idx) => {
                let value = self.sum_tree.get_leaf_node_sum(newest_idx);
                proof {
                    assert(self.window().last() == self.sum_tree@[newest_idx as int]);
                }
                Some(value)
            },
            None => None,
        }
    }

    fn get_samples(&self) -> (samples: Vec<i64>) {
        proof {
            self.sum_tree.lemma_view_len();
            self.samples.lemma_len_within_capacity();
        }
        let leaves = self.sum_tree.get_leaf_nodes_slice();
        let num_samples = self.samples.len();
        let mut samples: Vec<i64> = Vec::new();
        let mut i: usize = 0;
        while i < num_samples
            invariant
                i <= num_samples,
                num_samples <= leaves@.len(),
                leaves@.map_values(|v: i64| v as int) == self.sum_tree@,
                samples@.len() == i,
                forall|k: int| 0 <= k < i ==> #[trigger] samples@[k] == leaves@[k],
            decreases num_samples - i,
        {
            samples.push(leaves[i]);
            i = i + 1;
        }
        proof {
            assert forall|k: int| 0 <= k < num_samples implies #[trigger] samples@[k] as int
                == self.sum_tree@[k] by {
                assert(leaves@.map_values(|v: i64| v as int)[k] == leaves@[k] as int);
            }
            assert(samples@.map_values(|v: i64| v as int) =~= self.sum_tree@.subrange(
                0,
                num_samples as int,
            ));
        }
        samples
    }

    fn get_num_samples(&self) -> (num: usize) {
        proof {
            self.samples.lemma_len_within_capacity();
        }
        self.samples.len()
    }

    fn get_sample_window_size(&self) -> (size: usize) {
        self.samples.get_capacity()
    }
}

impl SumTreeMovingAverage {
    /// Constructs a [`SumTreeMovingAverage`] with the given window size
    /// and the additive identity of `i64` as its zero sample.
    pub fn new(window_size: usize) -> (ma: Self)
        requires
            window_size <= usize::MAX / 8,
        ensures
            ma.wf(),
            ma.window() == Seq::<int>::empty(),
            ma.window_size() == window_size,
            ma.zero_sample() == 0,
    {
        Self::from_zero(0, window_size)
    }

    /// Constructs a [`SumTreeMovingAverage`] with the given window size
    /// and the given zero sample, returned as the average of an empty
    /// window.
    pub fn from_zero(zero: i64, window_size: usize) -> (ma: Self)
        requires
            window_size <= usize::MAX / 8,
        ensures
            ma.wf(),
            ma.window() == Seq::<int>::empty(),
            ma.window_size() == window_size,
            ma.zero_sample() == zero as int,
    {
        let ma = SumTreeMovingAverage {
            samples: RingBuffer::new(0, window_size),
            sum_tree: SumTree::new(0, window_size),
            zero,
        };
        proof {
            ma.sum_tree.lemma_view_len();
            assert(ma.window() =~= Seq::<int>::empty());
            assert forall|k: int| 0 <= k < ma.sum_tree@.len() implies 0
                <= #[trigger] ma.sum_tree@[k] <= 0 by {
            }
            lemma_sum_of_bounds(ma.sum_tree@, 0, 0);
            assert(ma.sum_tree@.subrange(0, 0) =~= Seq::<int>::empty());
            assert(ma.sum_tree@.subrange(0, 0).to_multiset() =~= ma.window().to_multiset());
        }
        ma
    }
}

} // verus!
