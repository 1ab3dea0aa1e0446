use moving_average::MovingAverage;
use moving_average::NoSumMovingAverage;
use moving_average::SingleSumMovingAverage;
use moving_average::SingleSumSMA;
use moving_average::SumTreeMovingAverage;
use moving_average::SMA;

use std::time::Duration;

#[test]
fn f32_samples() {
    // Samples and expected averages are exactly representable integers, so
    // every strategy must agree exactly.
    let mut single_sum_ma = SingleSumMovingAverage::new(3);
    let mut sum_tree_ma = SumTreeMovingAverage::new(3);
    let mut no_sum_ma = NoSumMovingAverage::new(3);

    let samples: [i64; 7] = [4, 8, 3, 7, 11, 0, -23];
    let expected_averages: [i64; 7] = [4, 6, 5, 6, 7, 6, -4];
    let expected_num_samples: [usize; 7] = [1, 2, 3, 3, 3, 3, 3];

    assert_eq!(single_sum_ma.get_average_sample(), 0);
    assert_eq!(single_sum_ma.get_num_samples(), 0);
    assert_eq!(sum_tree_ma.get_average(), 0);
    assert_eq!(sum_tree_ma.get_num_samples(), 0);
    assert_eq!(no_sum_ma.get_average(), 0);
    assert_eq!(no_sum_ma.get_num_samples(), 0);

    for i in 0..samples.len() {
        single_sum_ma.add_sample(samples[i]);
        assert_eq!(single_sum_ma.get_average_sample(), expected_averages[i]);
        assert_eq!(single_sum_ma.get_num_samples(), expected_num_samples[i]);

        sum_tree_ma.add_sample(samples[i]);
        assert_eq!(sum_tree_ma.get_average(), expected_averages[i]);
        assert_eq!(sum_tree_ma.get_num_samples(), expected_num_samples[i]);

        no_sum_ma.add_sample(samples[i]);
        assert_eq!(no_sum_ma.get_average(), expected_averages[i]);
        assert_eq!(no_sum_ma.get_num_samples(), expected_num_samples[i]);
    }
}

#[test]
fn u32_samples() {
    let samples: [i64; 6] = [4, 8, 3, 7, 11, 0];
    let expected_averages: [i64; 6] = [4, 6, 5, 6, 7, 6];

    let mut single_sum_ma = SingleSumSMA::new(3);
    let mut sum_tree_ma = SumTreeMovingAverage::new(3);
    let mut no_sum_ma = NoSumMovingAverage::new(3);

    assert_eq!(single_sum_ma.get_average(), 0);
    assert_eq!(sum_tree_ma.get_average(), 0);
    assert_eq!(no_sum_ma.get_average(), 0);

    for i in 0..samples.len() {
        single_sum_ma.add_sample(samples[i]);
        assert_eq!(single_sum_ma.get_average(), expected_averages[i]);

        sum_tree_ma.add_sample(samples[i]);
        assert_eq!(sum_tree_ma.get_average(), expected_averages[i]);

        no_sum_ma.add_sample(samples[i]);
        assert_eq!(no_sum_ma.get_average(), expected_averages[i]);
    }
}

#[test]
fn u32_samples_2() {
    let samples: [i64; 5] = [1, 2, 3, 4, 10];
    let expected_averages: [i64; 5] = [1, 1, 2, 3, 5];

    let mut single_sum_ma = SingleSumSMA::new(3);
    let mut sum_tree_ma = SumTreeMovingAverage::new(3);
    let mut no_sum_ma = NoSumMovingAverage::new(3);

    for i in 0..samples.len() {
        single_sum_ma.add_sample(samples[i]);
        assert_eq!(single_sum_ma.get_average(), expected_averages[i]);

        sum_tree_ma.add_sample(samples[i]);
        assert_eq!(sum_tree_ma.get_average(), expected_averages[i]);

        no_sum_ma.add_sample(samples[i]);
        assert_eq!(no_sum_ma.get_average(), expected_averages[i]);
    }
}

#[test]
fn duration_samples() {
    // Durations are backed by integers, so they are averaged exactly; the
    // library sees them as whole seconds.
    let samples = [
        Duration::from_secs(10),
        Duration::from_secs(20),
        Duration::from_secs(30),
        Duration::from_secs(1),
        Duration::from_secs(32),
    ];
    let expected_averages = [
        Duration::from_secs(10),
        Duration::from_secs(15),
        Duration::from_secs(20),
        Duration::from_secs(17),
        Duration::from_secs(21),
    ];

    let mut single_sum_ma = SingleSumSMA::from_zero(Duration::ZERO.as_secs() as i64, 3);
    let mut sum_tree_ma = SumTreeMovingAverage::from_zero(Duration::ZERO.as_secs() as i64, 3);
    let mut no_sum_ma = NoSumMovingAverage::from_zero(Duration::ZERO.as_secs() as i64, 3);

    assert_eq!(single_sum_ma.get_average(), Duration::from_secs(0).as_secs() as i64);
    assert_eq!(sum_tree_ma.get_average(), Duration::from_secs(0).as_secs() as i64);
    assert_eq!(no_sum_ma.get_average(), Duration::from_secs(0).as_secs() as i64);

    for i in 0..samples.len() {
        let sample = samples[i].as_secs() as i64;
        let expected = expected_averages[i].as_secs() as i64;

        single_sum_ma.add_sample(sample);
        assert_eq!(single_sum_ma.get_average(), expected);

        sum_tree_ma.add_sample(sample);
        assert_eq!(sum_tree_ma.get_average(), expected);

        no_sum_ma.add_sample(sample);
        assert_eq!(no_sum_ma.get_average(), expected);
    }
}

#[test]
fn edge_case_zero_sized() {
    let mut single_sum_ma = SingleSumSMA::new(0);
    let mut sum_tree_ma = SumTreeMovingAverage::new(0);
    let mut no_sum_ma = NoSumMovingAverage::new(0);

    assert_eq!(single_sum_ma.get_average(), 0);
    assert_eq!(single_sum_ma.get_num_samples(), 0);
    assert_eq!(sum_tree_ma.get_average(), 0);
    assert_eq!(sum_tree_ma.get_num_samples(), 0);
    assert_eq!(no_sum_ma.get_average(), 0);
    assert_eq!(no_sum_ma.get_num_samples(), 0);

    single_sum_ma.add_sample(16);
    sum_tree_ma.add_sample(16);
    no_sum_ma.add_sample(16);

    assert_eq!(single_sum_ma.get_average(), 0);
    assert_eq!(single_sum_ma.get_num_samples(), 0);
    assert_eq!(sum_tree_ma.get_average(), 0);
    assert_eq!(sum_tree_ma.get_num_samples(), 0);
    assert_eq!(no_sum_ma.get_average(), 0);
    assert_eq!(no_sum_ma.get_num_samples(), 0);
}

#[test]
fn most_recent_sample_round_trip() {
    // The most recent sample always equals the last value added, for every
    // strategy.
    let mut single_sum_ma = SingleSumSMA::new(3);
    let mut sum_tree_ma = SumTreeMovingAverage::new(3);
    let mut no_sum_ma = NoSumMovingAverage::new(3);

    assert_eq!(single_sum_ma.get_most_recent_sample(), None);
    assert_eq!(sum_tree_ma.get_most_recent_sample(), None);
    assert_eq!(no_sum_ma.get_most_recent_sample(), None);

    for sample in [5i64, -3, 0, 42, 7, 9] {
        single_sum_ma.add_sample(sample);
        sum_tree_ma.add_sample(sample);
        no_sum_ma.add_sample(sample);
        assert_eq!(single_sum_ma.get_most_recent_sample(), Some(sample));
        assert_eq!(sum_tree_ma.get_most_recent_sample(), Some(sample));
        assert_eq!(no_sum_ma.get_most_recent_sample(), Some(sample));
    }
}

#[test]
fn eviction_keeps_last_window_size_samples() {
    // After adding window_size + k samples, the window holds exactly the
    // last window_size samples added.
    let samples: [i64; 7] = [1, 2, 3, 4, 5, 6, 7];

    let mut single_sum_ma = SingleSumSMA::new(4);
    let mut no_sum_ma = NoSumMovingAverage::new(4);
    let mut sum_tree_ma = SumTreeMovingAverage::new(4);
    for sample in samples {
        single_sum_ma.add_sample(sample);
        no_sum_ma.add_sample(sample);
        sum_tree_ma.add_sample(sample);
    }

    // Ring-backed strategies report the window oldest first.
    assert_eq!(single_sum_ma.get_samples(), vec![4, 5, 6, 7]);
    assert_eq!(no_sum_ma.get_samples(), vec![4, 5, 6, 7]);

    // The sum-tree strategy reports the same live samples in slot order.
    let mut tree_samples = sum_tree_ma.get_samples();
    tree_samples.sort();
    assert_eq!(tree_samples, vec![4, 5, 6, 7]);
}

#[test]
fn partial_window_samples_in_insertion_order() {
    // Until the first eviction, every strategy reports the samples in
    // insertion order: the sum-tree strategy allocates slots sequentially.
    let mut single_sum_ma = SingleSumSMA::new(5);
    let mut no_sum_ma = NoSumMovingAverage::new(5);
    let mut sum_tree_ma = SumTreeMovingAverage::new(5);
    for sample in [9i64, -1, 4] {
        single_sum_ma.add_sample(sample);
        no_sum_ma.add_sample(sample);
        sum_tree_ma.add_sample(sample);
    }
    assert_eq!(single_sum_ma.get_samples(), vec![9, -1, 4]);
    assert_eq!(no_sum_ma.get_samples(), vec![9, -1, 4]);
    assert_eq!(sum_tree_ma.get_samples(), vec![9, -1, 4]);
}

#[test]
fn window_size_getters_report_the_capacity() {
    let single_sum_ma = SingleSumSMA::new(7);
    assert_eq!(single_sum_ma.get_sample_window_size(), 7);

    let no_sum_ma = NoSumMovingAverage::new(7);
    assert_eq!(no_sum_ma.get_sample_window_size(), 7);

    let sum_tree_ma = SumTreeMovingAverage::new(7);
    assert_eq!(sum_tree_ma.get_sample_window_size(), 7);

    let single_sum_plain_ma = SingleSumMovingAverage::new(7);
    assert_eq!(single_sum_plain_ma.get_sample_window_size(), 7);
}

#[test]
fn num_samples_is_capped_by_window_size() {
    let mut single_sum_ma = SingleSumSMA::new(3);
    let mut sum_tree_ma = SumTreeMovingAverage::new(3);
    let mut no_sum_ma = NoSumMovingAverage::new(3);

    for total_added in 1..8usize {
        single_sum_ma.add_sample(total_added as i64);
        sum_tree_ma.add_sample(total_added as i64);
        no_sum_ma.add_sample(total_added as i64);

        let expected = total_added.min(3);
        assert_eq!(single_sum_ma.get_num_samples(), expected);
        assert_eq!(sum_tree_ma.get_num_samples(), expected);
        assert_eq!(no_sum_ma.get_num_samples(), expected);

        assert!(single_sum_ma.get_num_samples() <= single_sum_ma.get_sample_window_size());
        assert!(sum_tree_ma.get_num_samples() <= sum_tree_ma.get_sample_window_size());
        assert!(no_sum_ma.get_num_samples() <= no_sum_ma.get_sample_window_size());
    }
}

#[test]
fn strategies_agree_on_shared_stream() {
    // The same sequence of samples and window size gives the same averages
    // under every strategy: integer samples are exact.
    let samples: [i64; 10] = [100, -50, 3, 99, -7, 0, 12, 8, -200, 41];

    let mut single_sum_ma = SingleSumSMA::new(5);
    let mut single_sum_plain_ma = SingleSumMovingAverage::new(5);
    let mut sum_tree_ma = SumTreeMovingAverage::new(5);
    let mut no_sum_ma = NoSumMovingAverage::new(5);

    for sample in samples {
        single_sum_ma.add_sample(sample);
        single_sum_plain_ma.add_sample(sample);
        sum_tree_ma.add_sample(sample);
        no_sum_ma.add_sample(sample);

        let expected = no_sum_ma.get_average();
        assert_eq!(single_sum_ma.get_average(), expected);
        assert_eq!(single_sum_plain_ma.get_average_sample(), expected);
        assert_eq!(sum_tree_ma.get_average(), expected);
    }
}

#[test]
fn negative_averages_truncate_toward_zero() {
    // -7 / 2 == -3 for i64, so the average truncates toward zero.
    let mut no_sum_ma = NoSumMovingAverage::new(2);
    no_sum_ma.add_sample(-3);
    no_sum_ma.add_sample(-4);
    assert_eq!(no_sum_ma.get_average(), -3);

    let mut single_sum_ma = SingleSumSMA::new(2);
    single_sum_ma.add_sample(-3);
    single_sum_ma.add_sample(-4);
    assert_eq!(single_sum_ma.get_average(), -3);

    let mut sum_tree_ma = SumTreeMovingAverage::new(2);
    sum_tree_ma.add_sample(-3);
    sum_tree_ma.add_sample(-4);
    assert_eq!(sum_tree_ma.get_average(), -3);
}

#[test]
fn from_zero_returns_zero_sample_when_empty() {
    let single_sum_ma = SingleSumSMA::from_zero(99, 3);
    assert_eq!(single_sum_ma.get_average(), 99);

    let no_sum_ma = NoSumMovingAverage::from_zero(99, 3);
    assert_eq!(no_sum_ma.get_average(), 99);

    let sum_tree_ma = SumTreeMovingAverage::from_zero(99, 3);
    assert_eq!(sum_tree_ma.get_average(), 99);

    let single_sum_plain_ma = SingleSumMovingAverage::from_zero(99, 3);
    assert_eq!(single_sum_plain_ma.get_average_sample(), 99);
}
