use vstd::prelude::*;

verus! {

/// Sum of a sequence of mathematical integers, taken front to back.
pub open spec fn sum_of(s: Seq<int>) -> int
    decreases s.len(),
{
    if s.len() == 0 {
        0
    } else {
        s[0] + sum_of(s.drop_first())
    }
}

/// Integer division truncated toward zero, the semantics of `/` on the
/// sample type `i64`.
pub open spec fn div_trunc(a: int, b: int) -> int
    recommends
        b > 0,
{
    if a >= 0 {
        a / b
    } else {
        -((-a) / b)
    }
}

/// The simple moving average of the window `w`: the sum of its samples
/// divided by their count, or `zero` when the window is empty.
pub open spec fn sma_average(w: Seq<int>, zero: int) -> int {
    if w.len() == 0 {
        zero
    } else {
        div_trunc(sum_of(w), w.len() as int)
    }
}

/// The window contents, oldest first, after one sample is inserted into a
/// window of capacity `window_size`: a no-op when the capacity is zero,
/// otherwise the new sample enters at the newest end and, at capacity, the
/// oldest sample is evicted.
pub open spec fn window_after_add(w: Seq<int>, window_size: nat, v: int) -> Seq<int> {
    if window_size == 0 {
        w
    } else if w.len() < window_size {
        w.push(v)
    } else {
        w.drop_first().push(v)
    }
}

/// The window contents, oldest first, after the whole `stream` of samples
/// has been inserted, one at a time, into an initially empty window of
/// capacity `window_size`.
pub open spec fn stream_window(stream: Seq<int>, window_size: nat) -> Seq<int>
    decreases stream.len(),
{
    if stream.len() == 0 {
        Seq::empty()
    } else {
        window_after_add(stream_window(stream.drop_last(), window_size), window_size, stream.last())
    }
}

/// Appending a value adds it to the sum.
pub proof fn lemma_sum_of_push(s: Seq<int>, v: int)
    ensures
        sum_of(s.push(v)) == sum_of(s) + v,
    decreases s.len(),
{
    if s.len() == 0 {
        assert(s.push(v)[0] == v);
        assert(s.push(v).drop_first() =~= Seq::<int>::empty());
        assert(sum_of(Seq::<int>::empty()) == 0);
        assert(sum_of(s.push(v)) == v + sum_of(s.push(v).drop_first()));
    } else {
        assert(s.push(v)[0] == s[0]);
        assert(s.push(v).drop_first() =~= s.drop_first().push(v));
        lemma_sum_of_push(s.drop_first(), v);
    }
}

/// Extending a prefix by one element adds that element to the prefix sum.
pub proof fn lemma_sum_of_take_step(s: Seq<int>, i: int)
    requires
        0 <= i < s.len(),
    ensures
        sum_of(s.take(i + 1)) == sum_of(s.take(i)) + s[i],
{
    assert(s.take(i + 1) =~= s.take(i).push(s[i]));
    lemma_sum_of_push(s.take(i), s[i]);
}

/// Overwriting one element changes the sum by the difference.
pub proof fn lemma_sum_of_update(s: Seq<int>, i: int, v: int)
    requires
        0 <= i < s.len(),
    ensures
        sum_of(s.update(i, v)) == sum_of(s) - s[i] + v,
    decreases s.len(),
{
    if i == 0 {
        assert(s.update(0, v).drop_first() =~= s.drop_first());
    } else {
        assert(s.update(i, v).drop_first() =~= s.drop_first().update(i - 1, v));
        lemma_sum_of_update(s.drop_first(), i - 1, v);
    }
}

/// A sum of `len` values, each between `lo` and `hi`, lies between
/// `len * lo` and `len * hi`.
pub proof fn lemma_sum_of_bounds(s: Seq<int>, lo: int, hi: int)
    requires
        forall|i: int| 0 <= i < s.len() ==> lo <= #[trigger] s[i] <= hi,
    ensures
        s.len() * lo <= sum_of(s) <= s.len() * hi,
    decreases s.len(),
{
    if s.len() == 0 {
    } else {
        lemma_sum_of_bounds(s.drop_first(), lo, hi);
        assert(s.len() * lo == lo + (s.len() - 1) * lo) by (nonlinear_arith);
        assert(s.len() * hi == hi + (s.len() - 1) * hi) by (nonlinear_arith);
    }
}

/// Truncated division of a bounded sum by the count of its summands stays
/// within the bounds of the summands.
pub proof fn lemma_div_trunc_bounds(sum: int, n: int, lo: int, hi: int)
    requires
        n >= 1,
        lo <= 0,
        hi >= 0,
        n * lo <= sum <= n * hi,
    ensures
        lo <= div_trunc(sum, n) <= hi,
{
    if sum >= 0 {
        assert(sum / n <= hi) by {
            vstd::arithmetic::div_mod::lemma_div_is_ordered(sum, n * hi, n);
            vstd::arithmetic::div_mod::lemma_div_by_multiple(hi, n);
        }
        assert(sum / n >= 0) by {
            vstd::arithmetic::div_mod::lemma_div_is_ordered(0, sum, n);
        }
    } else {
        assert(-sum <= (-lo) * n) by (nonlinear_arith)
            requires
                n * lo <= sum,
        {
        }
        assert((-sum) / n <= -lo) by {
            vstd::arithmetic::div_mod::lemma_div_is_ordered(-sum, (-lo) * n, n);
            vstd::arithmetic::div_mod::lemma_div_by_multiple(-lo, n);
        }
        assert((-sum) / n >= 0) by {
            vstd::arithmetic::div_mod::lemma_div_is_ordered(0, -sum, n);
        }
    }
}

/// One insertion grows the window by one sample until the capacity is
/// reached, and leaves the count at the capacity afterwards; so the count
/// always equals the smaller of the number of samples ever added and the
/// capacity, and never exceeds the capacity.
pub proof fn lemma_window_after_add_len(w: Seq<int>, window_size: nat, v: int)
    requires
        w.len() <= window_size,
    ensures
        window_after_add(w, window_size, v).len() == if w.len() < window_size {
            w.len() + 1
        } else {
            w.len()
        },
        window_after_add(w, window_size, v).len() <= window_size,
{
}

/// After an insertion into a window with room, the newest sample is the one
/// just added: `get_most_recent_sample` returns the last value passed to
/// `add_sample` whenever the capacity is positive.
pub proof fn lemma_window_after_add_last(w: Seq<int>, window_size: nat, v: int)
    requires
        window_size > 0,
        w.len() <= window_size,
    ensures
        window_after_add(w, window_size, v).last() == v,
{
}

/// Eviction correctness: feeding any stream of samples, one at a time, into
/// an initially empty window leaves exactly the most recent
/// `min(stream.len(), window_size)` samples of the stream, oldest first.
pub proof fn lemma_stream_window_is_suffix(stream: Seq<int>, window_size: nat)
    ensures
        stream_window(stream, window_size) == stream.skip(
            if stream.len() <= window_size {
                0
            } else {
                stream.len() - window_size
            },
        ),
    decreases stream.len(),
{
    if stream.len() == 0 {
        assert(stream_window(stream, window_size) =~= stream.skip(0));
    } else {
        let prefix = stream.drop_last();
        lemma_stream_window_is_suffix(prefix, window_size);
        let start: int = if prefix.len() <= window_size {
            0
        } else {
            prefix.len() - window_size
        };
        let w = prefix.skip(start);
        if window_size == 0 {
            assert(stream_window(stream, window_size) =~= stream.skip(stream.len() as int));
        } else if w.len() < window_size {
            assert(w.push(stream.last()) =~= stream.skip(start));
        } else {
            assert(w.drop_first().push(stream.last()) =~= stream.skip(start + 1));
        }
    }
}

/// The window never holds more samples than were ever added, nor more than
/// its capacity.
pub proof fn lemma_stream_window_len(stream: Seq<int>, window_size: nat)
    ensures
        stream_window(stream, window_size).len() == if stream.len() <= window_size {
            stream.len()
        } else {
            window_size
        },
{
    lemma_stream_window_is_suffix(stream, window_size);
}

/// Zero-capacity windows stay empty no matter how many samples are added.
pub proof fn lemma_stream_window_zero_capacity(stream: Seq<int>)
    ensures
        stream_window(stream, 0) == Seq::<int>::empty(),
{
    lemma_stream_window_is_suffix(stream, 0);
    assert(stream.skip(stream.len() as int) =~= Seq::<int>::empty());
}

/// The average is a function of the window contents and the zero sample
/// alone. Every strategy's `get_average` is pinned to `sma_average` of its
/// window, so strategies holding equal windows agree exactly.
pub proof fn lemma_same_window_same_average(w1: Seq<int>, w2: Seq<int>, zero1: int, zero2: int)
    requires
        w1 == w2,
        zero1 == zero2,
    ensures
        sma_average(w1, zero1) == sma_average(w2, zero2),
{
}

/// The shared windowing contract: a bounded window over a stream of `i64`
/// samples, with the arithmetic mean of the current window on demand.
///
/// The simple moving average is defined as
/// `sum(window(samples, N)) / length(window(samples, N))`, where `samples`
/// is a possibly infinite series and `window` extracts the last `N` of
/// them. Samples outside the window no longer affect the average and are
/// discarded.
pub trait SMA: Sized {
    /// The samples currently in the window, oldest first.
    spec fn window(&self) -> Seq<int>;

    /// The fixed capacity of the window.
    spec fn window_size(&self) -> nat;

    /// The value returned as the average of an empty window.
    spec fn zero_sample(&self) -> int;

    /// Internal well-formedness.
    spec fn wf(&self) -> bool;

    /// The window never holds more samples than its capacity.
    proof fn lemma_window_within_capacity(&self)
        requires
            self.wf(),
        ensures
            self.window().len() <= self.window_size(),
    ;

    /// Adds a sample to the series. If the window is full, the oldest
    /// sample is evicted; if the capacity is zero, nothing changes.
    fn add_sample(&mut self, new_sample: i64)
        requires
            old(self).wf(),
        ensures
            final(self).wf(),
            final(self).window_size() == old(self).window_size(),
            final(self).zero_sample() == old(self).zero_sample(),
            final(self).window() == window_after_add(
                old(self).window(),
                old(self).window_size(),
                new_sample as int,
            ),
    ;

    /// Returns the simple moving average of the samples in the window.
    fn get_average(&self) -> (average: i64)
        requires
            self.wf(),
        ensures
            average as int == sma_average(self.window(), self.zero_sample()),
    ;

    /// Returns the most recently added sample, or `None` if the window is
    /// empty.
    fn get_most_recent_sample(&self) -> (sample: Option<i64>)
        requires
            self.wf(),
        ensures
            match sample {
                Some(v) => self.window().len() > 0 && v as int == self.window().last(),
                None => self.window().len() == 0,
            },
    ;

    /// Returns the samples currently in the window: exactly the live
    /// samples, in an order fixed by each strategy.
    fn get_samples(&self) -> (samples: Vec<i64>)
        requires
            self.wf(),
        ensures
            samples@.len() == self.window().len(),
            samples@.map_values(|v: i64| v as int).to_multiset() == self.window().to_multiset(),
    ;

    /// Returns the number of samples in the window, never more than the
    /// capacity.
    fn get_num_samples(&self) -> (num: usize)
        requires
            self.wf(),
        ensures
            num == self.window().len(),
            num <= self.window_size(),
    ;

    /// Returns the fixed capacity of the window.
    fn get_sample_window_size(&self) -> (size: usize)
        requires
            self.wf(),
        ensures
            size == self.window_size(),
    ;
}

} // verus!
