use fintech::error::StatError;
use fintech::key::{from_key, to_key};
use fintech::stats::{cal_statistic, Quartile, Stat};
use ndarray::{arr1, Axis};
use ndarray_stats::interpolate::Linear;
use ndarray_stats::QuantileExt;
use noisy_float::types::n64;

fn keys_of(sample: &[f64]) -> Vec<u64> {
    sample.iter().map(|x| to_key(x.to_bits())).collect()
}

fn number(key: u64) -> f64 {
    f64::from_bits(from_key(key))
}

fn interpolate(q: &Quartile) -> f64 {
    let lower = number(q.lower);
    let upper = number(q.upper);
    lower + f64::from(q.weight) / 4.0 * (upper - lower)
}

#[test]
fn empty_sample_is_insufficient_data() {
    assert_eq!(cal_statistic(&[]), Err(StatError::InsufficientData));
}

#[test]
fn single_value_is_degenerate_variance() {
    assert_eq!(cal_statistic(&[7]), Err(StatError::DegenerateVariance));
}

#[test]
fn two_values_have_statistics() {
    let stat = cal_statistic(&[9, 4]).unwrap();
    assert_eq!(
        stat,
        Stat {
            count: 2,
            min: 4,
            q1: Quartile { lower: 4, upper: 9, weight: 1 },
            q2: Quartile { lower: 4, upper: 9, weight: 2 },
            q3: Quartile { lower: 4, upper: 9, weight: 3 },
            max: 9,
        }
    );
}

#[test]
fn three_values_in_any_order() {
    let expected = Stat {
        count: 3,
        min: 10,
        q1: Quartile { lower: 10, upper: 20, weight: 2 },
        q2: Quartile { lower: 20, upper: 20, weight: 0 },
        q3: Quartile { lower: 20, upper: 30, weight: 2 },
        max: 30,
    };
    assert_eq!(cal_statistic(&[10, 20, 30]), Ok(expected));
    assert_eq!(cal_statistic(&[30, 10, 20]), Ok(expected));
    assert_eq!(cal_statistic(&[20, 30, 10]), Ok(expected));
    assert_eq!(cal_statistic(&[30, 20, 10]), Ok(expected));
}

#[test]
fn five_values_have_whole_ranks() {
    let stat = cal_statistic(&[50, 10, 40, 20, 30]).unwrap();
    assert_eq!(stat.count, 5);
    assert_eq!(stat.min, 10);
    assert_eq!(stat.max, 50);
    assert_eq!(stat.q1, Quartile { lower: 20, upper: 20, weight: 0 });
    assert_eq!(stat.q2, Quartile { lower: 30, upper: 30, weight: 0 });
    assert_eq!(stat.q3, Quartile { lower: 40, upper: 40, weight: 0 });
}

#[test]
fn four_values_have_every_weight() {
    let stat = cal_statistic(&[4, 3, 2, 1]).unwrap();
    assert_eq!(stat.q1, Quartile { lower: 1, upper: 2, weight: 3 });
    assert_eq!(stat.q2, Quartile { lower: 2, upper: 3, weight: 2 });
    assert_eq!(stat.q3, Quartile { lower: 3, upper: 4, weight: 1 });
}

#[test]
fn repeated_values_are_counted_each_time() {
    let stat = cal_statistic(&[5, 5, 5, 1]).unwrap();
    assert_eq!(stat.count, 4);
    assert_eq!(stat.min, 1);
    assert_eq!(stat.max, 5);
    assert_eq!(stat.q1, Quartile { lower: 1, upper: 5, weight: 3 });
    assert_eq!(stat.q2, Quartile { lower: 5, upper: 5, weight: 2 });
}

#[test]
fn input_is_left_as_it_is() {
    let data = vec![3u64, 1, 2];
    let _ = cal_statistic(&data);
    assert_eq!(data, vec![3, 1, 2]);
}

#[test]
fn median_is_the_middle_of_the_sorted_sample() {
    let odd: Vec<u64> = vec![8, 1, 9, 3, 7, 2, 6];
    let stat = cal_statistic(&odd).unwrap();
    assert_eq!(stat.q2, Quartile { lower: 6, upper: 6, weight: 0 });
    let even: Vec<u64> = vec![8, 1, 9, 3, 7, 2];
    let stat = cal_statistic(&even).unwrap();
    assert_eq!(stat.q2, Quartile { lower: 3, upper: 7, weight: 2 });
}

#[test]
fn large_sample_matches_a_plain_sort() {
    let mut data: Vec<u64> = Vec::new();
    let mut x: u64 = 12345;
    for _ in 0..1001 {
        x = x.wrapping_mul(6364136223846793005).wrapping_add(1442695040888963407);
        data.push(x >> 40);
    }
    let stat = cal_statistic(&data).unwrap();
    let mut sorted = data.clone();
    sorted.sort();
    assert_eq!(stat.count, 1001);
    assert_eq!(stat.min, sorted[0]);
    assert_eq!(stat.max, sorted[1000]);
    assert_eq!(stat.q1, Quartile { lower: sorted[250], upper: sorted[250], weight: 0 });
    assert_eq!(stat.q2, Quartile { lower: sorted[500], upper: sorted[500], weight: 0 });
    assert_eq!(stat.q3, Quartile { lower: sorted[750], upper: sorted[750], weight: 0 });
    data.pop();
    let stat = cal_statistic(&data).unwrap();
    sorted = data.clone();
    sorted.sort();
    assert_eq!(stat.q1, Quartile { lower: sorted[249], upper: sorted[250], weight: 3 });
    assert_eq!(stat.q2, Quartile { lower: sorted[499], upper: sorted[500], weight: 2 });
    assert_eq!(stat.q3, Quartile { lower: sorted[749], upper: sorted[750], weight: 1 });
}

#[test]
fn quartiles_agree_with_linear_interpolation_of_ndarray_stats() {
    let mut sample: Vec<f64> = Vec::new();
    let mut x: u64 = 99;
    for _ in 0..257 {
        x = x.wrapping_mul(6364136223846793005).wrapping_add(1442695040888963407);
        sample.push(((x >> 11) as f64) / ((1u64 << 53) as f64) * 3.0 - 1.0);
    }
    for len in [2usize, 3, 4, 5, 6, 7, 8, 9, 100, 101, 102, 103, 257] {
        let part = &sample[..len];
        let stat = cal_statistic(&keys_of(part)).unwrap();
        let mut data = arr1(part);
        let q1 = data.quantile_axis_skipnan_mut(Axis(0), n64(0.25), &Linear).unwrap();
        let q2 = data.quantile_axis_skipnan_mut(Axis(0), n64(0.5), &Linear).unwrap();
        let q3 = data.quantile_axis_skipnan_mut(Axis(0), n64(0.75), &Linear).unwrap();
        assert_eq!(stat.count, data.len());
        assert_eq!(number(stat.min), *data.min().unwrap());
        assert_eq!(number(stat.max), *data.max().unwrap());
        assert_eq!(interpolate(&stat.q1), q1.into_scalar());
        assert_eq!(interpolate(&stat.q2), q2.into_scalar());
        assert_eq!(interpolate(&stat.q3), q3.into_scalar());
    }
}

#[test]
fn sort_puts_values_in_ascending_order() {
    assert_eq!(fintech::sort::sort(&[]), Vec::<u64>::new());
    assert_eq!(fintech::sort::sort(&[5]), vec![5]);
    assert_eq!(fintech::sort::sort(&[3, 1, 2, 3, 0, u64::MAX, 1]), vec![0, 1, 1, 2, 3, 3, u64::MAX]);
    let mut data: Vec<u64> = (0..500).map(|i| (i * 7919) % 503).collect();
    let sorted = fintech::sort::sort(&data);
    data.sort();
    assert_eq!(sorted, data);
}

#[test]
fn gather_copies_the_picked_values() {
    let values = [10u64, 11, 12, 13];
    assert_eq!(fintech::select::gather_values(&values, &vec![]), Vec::<u64>::new());
    assert_eq!(fintech::select::gather_values(&values, &vec![3, 0, 0, 2]), vec![13, 10, 10, 12]);
}
