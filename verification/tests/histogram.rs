use histofit::frac::Frac;
use histofit::math::Histogram;

fn counts(h: &Histogram) -> Vec<usize> {
    h.occurrences.iter().map(|r| r.occurrences).collect()
}

fn total(h: &Histogram) -> usize {
    h.occurrences.iter().map(|r| r.occurrences).sum()
}

#[test]
fn sturges_group_numbers() {
    assert_eq!(Histogram::calculate_number_of_groups(1), 1);
    assert_eq!(Histogram::calculate_number_of_groups(2), 2);
    assert_eq!(Histogram::calculate_number_of_groups(3), 2);
    assert_eq!(Histogram::calculate_number_of_groups(10), 4);
    assert_eq!(Histogram::calculate_number_of_groups(1024), 11);
}

#[test]
fn group_number_and_step() {
    let series: Vec<i64> = (1..=10).collect();
    let (k, step) = Histogram::calculate_histogram_group_number_and_step(&series);
    assert_eq!(k, 4);
    assert_eq!(step.num, 9);
    assert_eq!(step.den, 4);
}

#[test]
fn example_one_to_ten() {
    // n = 10 -> 1 + floor(log2(10)) = 4 bins, step = (10 - 1) / 4 = 2.25,
    // and the counts conserve the sample size.
    let series: Vec<i64> = (1..=10).collect();
    let h = Histogram::from_sorted_series(&series);
    assert_eq!(h.sample_size, 10);
    assert_eq!(h.occurrences.len(), 4);
    assert_eq!(h.step.num, 9);
    assert_eq!(h.step.den, 4);
    assert_eq!(counts(&h), vec![3, 2, 2, 3]);
    assert_eq!(total(&h), 10);
}

#[test]
fn example_one_to_ten_centers() {
    // Midpoints 2.125, 4.375, 6.625, 8.875 over the common denominator 8.
    let series: Vec<i64> = (1..=10).collect();
    let h = Histogram::from_sorted_series(&series);
    let nums: Vec<i128> = h.occurrences.iter().map(|r| r.x.num).collect();
    assert_eq!(nums, vec![17, 35, 53, 71]);
    for row in h.occurrences.iter() {
        assert_eq!(row.x.den, 8);
    }
}

#[test]
fn centers_evenly_spaced_by_step() {
    let series: Vec<i64> = (1..=10).collect();
    let h = Histogram::from_sorted_series(&series);
    for pair in h.occurrences.windows(2) {
        let gap = pair[1].x.num - pair[0].x.num;
        // gap / den equals step exactly: cross multiplication.
        assert_eq!(gap * h.step.den, h.step.num * pair[0].x.den);
        assert!(pair[0].x.num < pair[1].x.num);
    }
    assert!(h.step.num > 0);
}

#[test]
fn explicit_group_count() {
    let series: Vec<i64> = (1..=10).collect();
    let h = Histogram::from_sorted_series_with_given_groups(&series, 5);
    assert_eq!(h.occurrences.len(), 5);
    assert_eq!(h.step.num, 9);
    assert_eq!(h.step.den, 5);
    assert_eq!(counts(&h), vec![2, 2, 2, 2, 2]);
    assert_eq!(total(&h), 10);
}

#[test]
fn single_value_sample() {
    let series: Vec<i64> = vec![7];
    let h = Histogram::from_sorted_series(&series);
    assert_eq!(h.occurrences.len(), 1);
    assert_eq!(h.step.num, 0);
    assert_eq!(h.step.den, 1);
    assert_eq!(counts(&h), vec![1]);
    assert_eq!(total(&h), 1);
}

#[test]
fn constant_sample_conserves_count() {
    // A constant sample has step 0, so every bounded bin is an empty
    // interval; all values land in the closed last bin.
    let series: Vec<i64> = vec![5, 5, 5];
    let h = Histogram::from_sorted_series(&series);
    assert_eq!(h.occurrences.len(), 2);
    assert_eq!(counts(&h), vec![0, 3]);
    assert_eq!(total(&h), 3);
}

#[test]
fn unique_maximum_conserves_count() {
    let series: Vec<i64> = vec![-3, -1, 0, 0, 2, 8];
    let h = Histogram::from_sorted_series(&series);
    assert_eq!(counts(&h), vec![4, 1, 1]);
    assert_eq!(total(&h), 6);
}

#[test]
fn duplicated_maximum_conserves_count() {
    // Every value equal to the maximum belongs to the closed last bin.
    let series: Vec<i64> = vec![1, 2, 3, 4, 4];
    let h = Histogram::from_sorted_series(&series);
    assert_eq!(counts(&h), vec![1, 1, 3]);
    assert_eq!(total(&h), 5);
}

#[test]
fn sparse_sample_keeps_empty_bins() {
    // A range no value falls in still gets its bin, with a zero count, so
    // the histogram always has exactly the requested number of bins.
    let series: Vec<i64> = vec![0, 0, 0, 10];
    let h = Histogram::from_sorted_series(&series);
    assert_eq!(counts(&h), vec![3, 0, 1]);
    assert_eq!(total(&h), 4);
}

#[test]
fn rebuild_is_deterministic() {
    let series: Vec<i64> = vec![-5, -2, 0, 3, 3, 9, 14, 20];
    let h1 = Histogram::from_sorted_series(&series);
    let h2 = Histogram::from_sorted_series(&series);
    assert_eq!(h1.sample_size, h2.sample_size);
    assert_eq!(h1.step, h2.step);
    assert_eq!(h1.occurrences.len(), h2.occurrences.len());
    for (a, b) in h1.occurrences.iter().zip(h2.occurrences.iter()) {
        assert_eq!(a, b);
    }
}

#[test]
fn frac_comparison() {
    let a = Frac::new(49, 10);
    let b = Frac::new(5, 1);
    assert!(a.lt(&b));
    assert!(!b.lt(&a));
    assert!(!b.lt(&b));
}
