use vstd::prelude::*;

use crate::sma::sma_average;
use crate::sma::window_after_add;

verus! {

/// A windowing contract over a stream of `i64` samples.
///
/// The simple moving average is defined as
/// `sum(window(samples, N)) / length(window(samples, N))`. Here `samples`
/// is a possibly infinite series of samples and the `window` function
/// extracts the last `N` of them. There is no point in keeping samples
/// outside the sample window around, so they are discarded when newer
/// samples push them out of the window.
///
/// Terminology:
///  - Sample: a data point.
///  - Sample window: the subset of all samples used for average
///    calculations.
pub trait MovingAverage: Sized {
    /// The samples currently in the window, oldest first.
    spec fn window(&self) -> Seq<int>;

    /// The fixed capacity of the window.
    spec fn window_size(&self) -> nat;

    /// The value returned as the average of an empty window.
    spec fn zero_sample(&self) -> int;

    /// Internal well-formedness.
    spec fn wf(&self) -> bool;

    /// Adds a sample to the series of samples. If the sample window is
    /// full, this will cause the oldest sample to be dropped, i.e. no
    /// longer contribute to the average.
    fn add_sample(&mut self, new_sample: i64)
        requires
            old(self).wf(),
        ensures
            final(self).wf(),
            final(self).window_size() == old(self).window_size(),
            final(self).zero_sample() == old(self).zero_sample(),
            final(self).window() == window_after_add(
                old(self).window(),
                old(self).window_size(),
                new_sample as int,
            ),
    ;

    /// Returns the simple moving average value of all the samples in the
    /// sample window.
    fn get_average_sample(&self) -> (average: i64)
        requires
            self.wf(),
        ensures
            average as int == sma_average(self.window(), self.zero_sample()),
    ;

    /// Returns the most recently added sample, or `None` if the window is
    /// empty.
    fn get_most_recent_sample(&self) -> (sample: Option<i64>)
        requires
            self.wf(),
        ensures
            match sample {
                Some(v) => self.window().len() > 0 && v as int == self.window().last(),
                None => self.window().len() == 0,
            },
    ;

    /// Returns all samples in the sample window: exactly the live
    /// samples, oldest first.
    fn get_samples(&self) -> (samples: Vec<i64>)
        requires
            self.wf(),
        ensures
            samples@.len() == self.window().len(),
            samples@.map_values(|v: i64| v as int) == self.window(),
    ;

    /// Returns the total number of samples in the sample window.
    fn get_num_samples(&self) -> (num: usize)
        requires
            self.wf(),
        ensures
            num == self.window().len(),
            num <= self.window_size(),
    ;
}

} // verus!
