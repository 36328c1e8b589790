use analyse::{analyse_prop, Stats};

fn all(value: u64) -> Stats {
    Stats { min: value, max: value, mean: value, med: value, p95: value }
}

#[test]
fn stats_of_two_values() {
    let stats = analyse_prop(vec![30, 40]);
    assert_eq!(stats, Stats { min: 30, max: 40, mean: 35, med: 40, p95: 40 });
}

#[test]
fn stats_do_not_depend_on_order() {
    let sorted = analyse_prop(vec![1, 2, 3, 4, 5, 6, 7, 8, 9, 10]);
    let shuffled = analyse_prop(vec![7, 2, 10, 1, 9, 3, 8, 5, 4, 6]);
    let reversed = analyse_prop(vec![10, 9, 8, 7, 6, 5, 4, 3, 2, 1]);
    assert_eq!(sorted, shuffled);
    assert_eq!(sorted, reversed);
    assert_eq!(sorted, Stats { min: 1, max: 10, mean: 5, med: 6, p95: 10 });
}

#[test]
fn stats_of_unsorted_values_are_those_of_the_sorted() {
    let stats = analyse_prop(vec![9, 1, 5]);
    assert_eq!(stats, Stats { min: 1, max: 9, mean: 5, med: 5, p95: 9 });
}

#[test]
fn stats_of_a_single_value() {
    assert_eq!(analyse_prop(vec![42]), all(42));
    assert_eq!(analyse_prop(vec![0]), all(0));
    assert_eq!(analyse_prop(vec![u64::MAX]), all(u64::MAX));
}

#[test]
fn stats_of_equal_values() {
    assert_eq!(analyse_prop(vec![7, 7, 7, 7]), all(7));
}

#[test]
fn stats_lie_between_min_and_max() {
    let mut state: u64 = 0x2545_f491_4f6c_dd1d;
    for round in 0..200usize {
        let count = 1 + round % 37;
        let mut values: Vec<u64> = Vec::new();
        for _ in 0..count {
            state ^= state << 13;
            state ^= state >> 7;
            state ^= state << 17;
            values.push(state % 1000);
        }
        let least = *values.iter().min().unwrap();
        let greatest = *values.iter().max().unwrap();
        let stats = analyse_prop(values);
        assert_eq!(stats.min, least);
        assert_eq!(stats.max, greatest);
        assert!(stats.min <= stats.med && stats.med <= stats.max);
        assert!(stats.min <= stats.mean && stats.mean <= stats.max);
        assert!(stats.min <= stats.p95 && stats.p95 <= stats.max);
    }
}

#[test]
fn mean_is_rounded_down() {
    assert_eq!(analyse_prop(vec![1, 2]).mean, 1);
    assert_eq!(analyse_prop(vec![1, 1, 2]).mean, 1);
    assert_eq!(analyse_prop(vec![3, 4, 4]).mean, 3);
    assert_eq!(analyse_prop(vec![10, 20, 30, 41]).mean, 25);
}

#[test]
fn mean_of_values_whose_sum_exceeds_64_bits() {
    let stats = analyse_prop(vec![u64::MAX, u64::MAX, u64::MAX - 3]);
    assert_eq!(stats.mean, u64::MAX - 1);
    assert_eq!(stats.min, u64::MAX - 3);
    assert_eq!(stats.max, u64::MAX);
}

#[test]
fn median_of_an_even_number_of_values_is_the_upper_middle() {
    assert_eq!(analyse_prop(vec![1, 2, 3, 4]).med, 3);
    assert_eq!(analyse_prop(vec![4, 1]).med, 4);
    assert_eq!(analyse_prop(vec![1, 2, 3, 4, 5, 6]).med, 4);
}

#[test]
fn median_of_an_odd_number_of_values_is_the_middle() {
    assert_eq!(analyse_prop(vec![5, 1, 3]).med, 3);
    assert_eq!(analyse_prop(vec![1, 2, 3, 4, 5]).med, 3);
}

#[test]
fn p95_of_twenty_values_is_the_last() {
    let values: Vec<u64> = (1..=20).collect();
    assert_eq!(analyse_prop(values).p95, 20);
}

#[test]
fn p95_of_twenty_one_values_is_the_last_but_one() {
    let values: Vec<u64> = (1..=21).rev().collect();
    assert_eq!(analyse_prop(values).p95, 20);
}

#[test]
fn p95_of_a_hundred_values() {
    let values: Vec<u64> = (0..100).map(|value| value * 10).collect();
    let stats = analyse_prop(values);
    assert_eq!(stats.p95, 950);
    assert_eq!(stats.med, 500);
    assert_eq!(stats.mean, 495);
    assert_eq!(stats.min, 0);
    assert_eq!(stats.max, 990);
}

#[test]
fn stats_agree_with_a_plain_computation() {
    let mut state: u64 = 88172645463325252;
    for round in 0..300usize {
        let count = 1 + (round * 7) % 123;
        let mut values: Vec<u64> = Vec::new();
        for _ in 0..count {
            state ^= state << 13;
            state ^= state >> 7;
            state ^= state << 17;
            values.push(state >> (round % 60));
        }
        let mut sorted = values.clone();
        sorted.sort();
        let sum: u128 = sorted.iter().map(|&value| value as u128).sum();
        let expected = Stats {
            min: sorted[0],
            max: sorted[count - 1],
            mean: (sum / count as u128) as u64,
            med: sorted[count / 2],
            p95: sorted[(count as f64 * 0.95) as usize],
        };
        assert_eq!(analyse_prop(values), expected);
    }
}
