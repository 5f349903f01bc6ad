use histofit::analysis::StatError;
use histofit::analysis::degrees_of_freedom;
use histofit::frac::Frac;
use histofit::math::Histogram;

#[test]
fn expected_value_of_example() {
    // Centers 17/8, 35/8, 53/8, 71/8 with counts 3, 2, 2, 3:
    // mean = 440 / (8 * 10) = 5.5 exactly.
    let series: Vec<i64> = (1..=10).collect();
    let h = Histogram::from_sorted_series(&series);
    let mean = h.calculate_expected_value();
    assert_eq!(mean.num, 440);
    assert_eq!(mean.den, 80);
}

#[test]
fn variance_of_example() {
    // variance = (n * sum(c^2 * cnt) - sum(c * cnt)^2) / (8 * 10)^2
    //          = (10 * 24058 - 440^2) / 6400 = 46980 / 6400 = 7.340625.
    let series: Vec<i64> = (1..=10).collect();
    let h = Histogram::from_sorted_series(&series);
    let (mean, variance) = h.calculate_expected_value_and_variance();
    assert_eq!(mean.num, 440);
    assert_eq!(variance.num, 46980);
    assert_eq!(variance.den, 6400);
}

#[test]
fn unbiased_variance_scales_by_n_over_n_minus_one() {
    let series: Vec<i64> = (1..=10).collect();
    let h = Histogram::from_sorted_series(&series);
    let (_, variance, unbiased) = h.calculate_expected_value_variance_and_unbiased_variance();
    assert_eq!(unbiased.num, variance.num);
    assert_eq!(unbiased.den, 5760);
    // unbiased == variance * n / (n - 1), checked by cross multiplication:
    let n: i128 = 10;
    assert_eq!(unbiased.num * (variance.den * (n - 1)), (variance.num * n) * unbiased.den);
}

#[test]
fn degrees_of_freedom_example() {
    // 5 bins and 2 estimated parameters leave 5 - 2 - 1 = 2 degrees.
    assert_eq!(degrees_of_freedom(5, 2), Ok(2));
}

#[test]
fn degrees_of_freedom_must_be_positive() {
    assert_eq!(degrees_of_freedom(3, 2), Err(StatError::InvalidParameter));
    assert_eq!(degrees_of_freedom(2, 2), Err(StatError::InvalidParameter));
    assert_eq!(degrees_of_freedom(1, 0), Err(StatError::InvalidParameter));
    assert_eq!(degrees_of_freedom(2, 0), Ok(1));
}

#[test]
fn decision_rule_is_strict() {
    let five = Frac::new(5, 1);
    let almost_five = Frac::new(49, 10);
    assert!(!Histogram::use_persean_test((five, five)));
    assert!(Histogram::use_persean_test((almost_five, five)));
    assert!(!Histogram::use_persean_test((five, almost_five)));
}

#[test]
fn chi_squared_statistic_exact() {
    // probs j/10 at the four bins of the 1..=10 example; with n = 10 the
    // terms are floor((occ*q - p*n)^2 * 1e9 / (n*n*q*p)):
    // 400e9/1000, 0, 100e9/3000, 100e9/4000.
    let series: Vec<i64> = (1..=10).collect();
    let h = Histogram::from_sorted_series(&series);
    let probs: Vec<i64> = vec![1, 2, 3, 4];
    let stat = h.chi_squared_statistic(&probs, 10).unwrap();
    assert_eq!(stat.num, 400_000_000 + 0 + 33_333_333 + 25_000_000);
    assert_eq!(stat.den, 1_000_000_000);
}

#[test]
fn chi_squared_zero_probability_is_an_error() {
    let series: Vec<i64> = (1..=10).collect();
    let h = Histogram::from_sorted_series(&series);
    let probs: Vec<i64> = vec![1, 0, 3, 4];
    assert_eq!(h.chi_squared_statistic(&probs, 10), Err(StatError::NumericalError));
}

#[test]
fn chi_squared_perfect_fit_is_zero() {
    // Probabilities exactly equal to the observed frequencies give a zero
    // statistic, so an unchanged input would be caught by the other cases.
    let series: Vec<i64> = (1..=10).collect();
    let h = Histogram::from_sorted_series(&series);
    let probs: Vec<i64> = vec![3, 2, 2, 3];
    let stat = h.chi_squared_statistic(&probs, 10).unwrap();
    assert_eq!(stat.num, 0);
    assert_eq!(stat.den, 1_000_000_000);
}

#[test]
fn raw_series_statistics() {
    // Raw estimators on 1..=10: mean 55/10, biased variance
    // (10*385 - 55^2)/100 = 825/100 = 8.25, unbiased 825/90.
    let series: Vec<i64> = (1..=10).collect();
    let mean = histofit::analysis::calculate_expected_value(&series);
    assert_eq!(mean.num, 55);
    assert_eq!(mean.den, 10);
    let (_, variance) = histofit::analysis::calculate_expected_value_and_variance(&series);
    assert_eq!(variance.num, 825);
    assert_eq!(variance.den, 100);
    let (_, v, u) =
        histofit::analysis::calculate_expected_value_variance_and_unbiased_variance(&series);
    assert_eq!(u.num, v.num);
    assert_eq!(u.den, 90);
    let n: i128 = 10;
    assert_eq!(u.num * (v.den * (n - 1)), (v.num * n) * u.den);
}
