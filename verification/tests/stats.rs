use hedonica_sim::stats::{Fraction, Stats};

fn fed(values: &[i32]) -> Stats {
    let mut stats = Stats::new();
    for value in values {
        stats.add(*value);
    }
    stats
}

fn as_float(fraction: Fraction) -> f64 {
    fraction.numerator as f64 / fraction.denominator as f64
}

#[test]
fn stats_of_one_to_four() {
    let stats = fed(&[1, 2, 3, 4]);
    assert_eq!(stats.len(), 4);
    assert_eq!(stats.min(), Some(1));
    assert_eq!(stats.max(), Some(4));
    assert_eq!(stats.mean(), Some(Fraction { numerator: 10, denominator: 4 }));
    assert_eq!(stats.var(), Some(Fraction { numerator: 20, denominator: 16 }));
    assert_eq!(as_float(stats.mean().unwrap()), 2.5);
    assert_eq!(as_float(stats.var().unwrap()), 1.25);
}

#[test]
fn stats_of_a_single_value() {
    for value in [7, 0, -3, i32::MAX, i32::MIN] {
        let stats = fed(&[value]);
        assert_eq!(stats.min(), Some(value));
        assert_eq!(stats.max(), Some(value));
        assert_eq!(stats.mean(), Some(Fraction { numerator: value as i128, denominator: 1 }));
        assert_eq!(stats.var(), Some(Fraction { numerator: 0, denominator: 1 }));
        assert_eq!(as_float(stats.mean().unwrap()), value as f64);
        assert_eq!(as_float(stats.var().unwrap()), 0.0);
    }
}

#[test]
fn stats_of_nothing() {
    let stats = Stats::new();
    assert_eq!(stats.len(), 0);
    assert_eq!(stats.min(), None);
    assert_eq!(stats.max(), None);
    assert_eq!(stats.mean(), None);
    assert_eq!(stats.var(), None);
}

#[test]
fn stats_do_not_depend_on_the_order() {
    let one = fed(&[5, -2, 9, 9, 0, 3]);
    let other = fed(&[9, 3, 0, 5, 9, -2]);
    assert_eq!(one.len(), other.len());
    assert_eq!(one.min(), other.min());
    assert_eq!(one.max(), other.max());
    assert_eq!(one.mean(), other.mean());
    assert_eq!(one.var(), other.var());
    assert_eq!(one.min(), Some(-2));
    assert_eq!(one.max(), Some(9));
    assert_eq!(one.mean(), Some(Fraction { numerator: 24, denominator: 6 }));
    assert_eq!(one.var(), Some(Fraction { numerator: 6 * 200 - 24 * 24, denominator: 36 }));
}

#[test]
fn stats_of_extreme_values() {
    let stats = fed(&[i32::MIN, i32::MAX, i32::MIN, i32::MAX]);
    assert_eq!(stats.min(), Some(i32::MIN));
    assert_eq!(stats.max(), Some(i32::MAX));
    assert_eq!(stats.mean(), Some(Fraction { numerator: -2, denominator: 4 }));
    let low = i32::MIN as i128;
    let high = i32::MAX as i128;
    let squares = 2 * low * low + 2 * high * high;
    assert_eq!(stats.var(), Some(Fraction { numerator: 4 * squares - 4, denominator: 16 }));
}
