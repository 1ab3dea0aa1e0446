use vstd::prelude::*;

use crate::common::cast_to_divisor_type;
use crate::common::divide_sum_by_count;
use crate::ring_buffer::RingBuffer;
use crate::sma::lemma_sum_of_bounds;
use crate::sma::lemma_sum_of_take_step;
use crate::sma::sum_of;
use crate::sma::window_after_add;
use crate::sma::SMA;

verus! {

/// A moving average that caches no aggregate at all: every read re-sums
/// the live samples from scratch. Writes are constant-time; reads cost one
/// pass over the window, and no rounding error can accumulate across reads
/// because each computation is independent. With the exact `i64` samples
/// used here every strategy is exact anyway; this one trades read latency
/// for the smallest possible state.
pub struct NoSumMovingAverage {
    samples: RingBuffer<i64>,
    zero: i64,
}

impl SMA for NoSumMovingAverage {
    closed spec fn window(&self) -> Seq<int> {
        self.samples@.map_values(|v: i64| v as int)
    }

    closed spec fn window_size(&self) -> nat {
        self.samples.capacity()
    }

    closed spec fn zero_sample(&self) -> int {
        self.zero as int
    }

    closed spec fn wf(&self) -> bool {
        &&& self.samples.wf()
        &&& self.samples.capacity() <= usize::MAX / 8
    }

    proof fn lemma_window_within_capacity(&self) {
        self.samples.lemma_len_within_capacity();
    }

    fn add_sample(&mut self, new_sample: i64) {
        if self.samples.get_capacity() == 0 {
            return ;
        }
        self.samples.shift(new_sample);
        proof {
            assert(self.window() =~= window_after_add(
                old(self).window(),
                old(self).window_size(),
                new_sample as int,
            ));
        }
    }

    fn get_average(&self) -> (average: i64) {
        let num_samples = self.samples.len();
        if num_samples == 0 {
            return self.zero;
        }
        proof {
            self.samples.lemma_len_within_capacity();
        }
        let divisor = cast_to_divisor_type(num_samples);
        let mut sum: i128 = 0;
        let mut i: usize = 0;
        while i < num_samples
            invariant
                self.wf(),
                num_samples == self.samples@.len(),
                num_samples <= usize::MAX / 8,
                i <= num_samples,
                sum as int == sum_of(self.window().take(i as int)),
                -(i as int * 0x8000_0000_0000_0000) <= sum as int <= i as int
                    * 0x8000_0000_0000_0000,
            decreases num_samples - i,
        {
            let sample = self.samples.get(i);
            proof {
                assert(self.window()[i as int] == self.samples@[i as int] as int);
                lemma_sum_of_take_step(self.window(), i as int);
            }
            sum = sum + sample as i128;
            i = i + 1;
        }
        proof {
            assert(self.window().take(num_samples as int) =~= self.window());
            assert forall|k: int| 0 <= k < self.window().len() implies i64::MIN
                <= #[trigger] self.window()[k] <= i64::MAX by {
                assert(self.window()[k] == self.samples@[k] as int);
            }
            lemma_sum_of_bounds(self.window(), i64::MIN as int, i64::MAX as int);
        }
        divide_sum_by_count(sum, divisor)
    }

    fn get_most_recent_sample(&self) -> (sample: Option<i64>) {
        let sample = self.samples.front();
        proof {
            if self.samples@.len() > 0 {
                assert(self.window().last() == self.samples@.last() as int);
            }
        }
        sample
    }

    fn get_samples(&self) -> (samples: Vec<i64>) {
        let num_samples = self.samples.len();
        let mut samples: Vec<i64> = Vec::new();
        let mut i: usize = 0;
        while i < num_samples
            invariant
                self.wf(),
                num_samples == self.samples@.len(),
                i <= num_samples,
                samples@.len() == i,
                forall|k: int| 0 <= k < i ==> #[trigger] samples@[k] == self.samples@[k],
            decreases num_samples - i,
        {
            samples.push(self.samples.get(i));
            i = i + 1;
        }
        proof {
            assert(samples@.map_values(|v: i64| v as int) =~= self.window());
        }
        samples
    }

    fn get_num_samples(&self) -> (num: usize) {
        proof {
            self.samples.lemma_len_within_capacity();
        }
        self.samples.len()
    }

    fn get_sample_window_size(&self) -> (size: usize) {
        self.samples.get_capacity()
    }
}

impl NoSumMovingAverage {
    /// Constructs a [`NoSumMovingAverage`] with the given window size and
    /// the additive identity of `i64` as its zero sample.
    pub fn new(window_size: usize) -> (ma: Self)
        requires
            window_size <= usize::MAX / 8,
        ensures
            ma.wf(),
            ma.window() == Seq::<int>::empty(),
            ma.window_size() == window_size,
            ma.zero_sample() == 0,
    {
        Self::from_zero(0, window_size)
    }

    /// Constructs a [`NoSumMovingAverage`] with the given window size and
    /// the given zero sample, returned as the average of an empty window.
    pub fn from_zero(zero: i64, window_size: usize) -> (ma: Self)
        requires
            window_size <= usize::MAX / 8,
        ensures
            ma.wf(),
            ma.window() == Seq::<int>::empty(),
            ma.window_size() == window_size,
            ma.zero_sample() == zero as int,
    {
        let ma = NoSumMovingAverage { samples: RingBuffer::new(0, window_size), zero };
        proof {
            assert(ma.window() =~= Seq::<int>::empty());
        }
        ma
    }
}

} // verus!
