//! Simple moving averages over a bounded, sliding window of `i64` samples.
//!
//! Three strategies share one windowing contract. [`SingleSumSMA`] and
//! [`SingleSumMovingAverage`] cache the window sum as a single running
//! total (constant-time writes and reads, incremental mutation forever).
//! [`NoSumMovingAverage`] re-sums the window on every read (constant-time
//! writes, linear reads, no state beyond the samples).
//! [`SumTreeMovingAverage`] keeps a complete binary tree of partial sums
//! (logarithmic writes, constant-time reads, and every ancestor freshly
//! recomputed from its children rather than adjusted in place). All of
//! them are backed by a fixed-capacity circular buffer, and all are
//! specified against the same mathematical model: the window is the
//! sequence of the most recent samples, and the average is the window sum
//! divided by the sample count, truncating as `i64` division does.

mod common;
mod moving_average;
mod no_sum_moving_average;
mod ring_buffer;
mod single_sum_moving_average;
mod single_sum_sma;
mod sma;
mod sum_tree;
mod sum_tree_moving_average;

pub use crate::common::cast_to_divisor_type;
pub use crate::common::divide_sum_by_count;
pub use crate::moving_average::MovingAverage;
pub use crate::no_sum_moving_average::NoSumMovingAverage;
pub use crate::ring_buffer::Iter;
pub use crate::ring_buffer::RingBuffer;
pub use crate::single_sum_moving_average::SingleSumMovingAverage;
pub use crate::single_sum_sma::SingleSumSMA;
pub use crate::sma::SMA;
pub use crate::sum_tree::SumTree;
pub use crate::sum_tree_moving_average::SumTreeMovingAverage;
