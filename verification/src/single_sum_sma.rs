use vstd::prelude::*;

use crate::common::cast_to_divisor_type;
use crate::common::divide_sum_by_count;
use crate::ring_buffer::RingBuffer;
use crate::sma::lemma_sum_of_bounds;
use crate::sma::lemma_sum_of_push;
use crate::sma::sum_of;
use crate::sma::window_after_add;
use crate::sma::SMA;

verus! {

/// A moving average that caches the sum of the live samples as a single
/// running total: constant-time writes and reads. The total is mutated
/// incrementally forever — each insertion adds the new sample and
/// subtracts the evicted one — which is exact for the `i64` samples used
/// here, though for inexact sample types that same scheme would let
/// rounding error drift without bound.
pub struct SingleSumSMA {
    samples: RingBuffer<i64>,
    sum: i128,
    zero: i64,
}

impl SMA for SingleSumSMA {
    closed spec fn window(&self) -> Seq<int> {
        self.samples@.map_values(|v: i64| v as int)
    }

    closed spec fn window_size(&self) -> nat {
        self.samples.capacity()
    }

    closed spec fn zero_sample(&self) -> int {
        self.zero as int
    }

    closed spec fn wf(&self) -> bool {
        &&& self.samples.wf()
        &&& self.samples.capacity() <= usize::MAX / 8
        &&& self.sum as int == sum_of(self.window())
    }

    proof fn lemma_window_within_capacity(&self) {
        self.samples.lemma_len_within_capacity();
    }

    fn add_sample(&mut self, new_sample: i64) {
        if self.samples.get_capacity() == 0 {
            return ;
        }
        proof {
            self.samples.lemma_len_within_capacity();
            lemma_window_bounds(*self);
        }
        self.sum = self.sum + new_sample as i128;
        if self.samples.len() == self.samples.get_capacity() {
            let popped = self.samples.pop_back();
            match popped {
                Some(oldest_sample) => {
                    self.sum = self.sum - oldest_sample as i128;
                },
                None => {},
            }
        }
        self.samples.push_front(new_sample);
        proof {
            let w = old(self).window();
            assert(self.window() =~= window_after_add(
                w,
                old(self).window_size(),
                new_sample as int,
            ));
            if w.len() == old(self).window_size() {
                assert(sum_of(w) == w[0] + sum_of(w.drop_first()));
                lemma_sum_of_push(w.drop_first(), new_sample as int);
            } else {
                lemma_sum_of_push(w, new_sample as int);
            }
        }
    }

    fn get_average(&self) -> (average: i64) {
        let num_samples = self.samples.len();
        if num_samples == 0 {
            return self.zero;
        }
        proof {
            self.samples.lemma_len_within_capacity();
            lemma_window_bounds(*self);
        }
        let divisor = cast_to_divisor_type(num_samples);
        divide_sum_by_count(self.sum, divisor)
    }

    fn get_most_recent_sample(&self) -> (sample: Option<i64>) {
        let sample = self.samples.front();
        proof {
            if self.samples@.len() > 0 {
                assert(self.window().last() == self.samples@.last() as int);
            }
        }
        sample
    }

    fn get_samples(&self) -> (samples: Vec<i64>) {
        let num_samples = self.samples.len();
        let mut samples: Vec<i64> = Vec::new();
        let mut i: usize = 0;
        while i < num_samples
            invariant
                self.samples.wf(),
                num_samples == self.samples@.len(),
                i <= num_samples,
                samples@.len() == i,
                forall|k: int| 0 <= k < i ==> #[trigger] samples@[k] == self.samples@[k],
            decreases num_samples - i,
        {
            samples.push(self.samples.get(i));
            i = i + 1;
        }
        proof {
            assert(samples@.map_values(|v: i64| v as int) =~= self.window());
        }
        samples
    }

    fn get_num_samples(&self) -> (num: usize) {
        proof {
            self.samples.lemma_len_within_capacity();
        }
        self.samples.len()
    }

    fn get_sample_window_size(&self) -> (size: usize) {
        self.samples.get_capacity()
    }
}

/// The cached running total of a well-formed [`SingleSumSMA`] stays within
/// the window length times the sample range.
proof fn lemma_window_bounds(ma: SingleSumSMA)
    requires
        ma.wf(),
    ensures
        ma.window().len() as int * (i64::MIN as int) <= sum_of(ma.window()) <= ma.window().len()
            as int * (i64::MAX as int),
        forall|k: int|
            0 <= k < ma.window().len() ==> i64::MIN <= #[trigger] ma.window()[k] <= i64::MAX,
{
    assert forall|k: int|
        0 <= k < ma.window().len() implies i64::MIN <= #[trigger] ma.window()[k]
        <= i64::MAX by {
        assert(ma.window()[k] == ma.samples@[k] as int);
    }
    lemma_sum_of_bounds(ma.window(), i64::MIN as int, i64::MAX as int);
}

impl SingleSumSMA {
    /// Constructs a [`SingleSumSMA`] with the given window size and the
    /// additive identity of `i64` as its zero sample.
    pub fn new(window_size: usize) -> (ma: Self)
        requires
            window_size <= usize::MAX / 8,
        ensures
            ma.wf(),
            ma.window() == Seq::<int>::empty(),
            ma.window_size() == window_size,
            ma.zero_sample() == 0,
    {
        Self::from_zero(0, window_size)
    }

    /// Constructs a [`SingleSumSMA`] with the given window size and the
    /// given zero sample, returned as the average of an empty window.
    pub fn from_zero(zero: i64, window_size: usize) -> (ma: Self)
        requires
            window_size <= usize::MAX / 8,
        ensures
            ma.wf(),
            ma.window() == Seq::<int>::empty(),
            ma.window_size() == window_size,
            ma.zero_sample() == zero as int,
    {
        let ma = SingleSumSMA { samples: RingBuffer::new(0, window_size), sum: 0, zero };
        proof {
            assert(ma.window() =~= Seq::<int>::empty());
        }
        ma
    }
}

} // verus!
