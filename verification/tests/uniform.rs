use probability::distributions::uniform::Uniform;
use probability::ratio::{Ratio, PART_LIMIT};
use probability::{Distribution, RandomSource, Sampler};

/// A small deterministic congruential generator, standing in for the random
/// source that an embedding application would supply.
struct TestSource {
    state: u64,
}

impl TestSource {
    fn new(seed: u64) -> TestSource {
        TestSource { state: seed }
    }
}

impl RandomSource for TestSource {
    fn next_unit(&mut self) -> Ratio {
        self.state = self
            .state
            .wrapping_mul(6364136223846793005)
            .wrapping_add(1442695040888963407);
        let num: i64 = (self.state >> 44) as i64;
        Ratio::new(num, PART_LIMIT)
    }
}

fn ratio(num: i64, den: i64) -> Ratio {
    Ratio::new(num, den)
}

#[test]
fn cdf() {
    let u = Uniform::new(ratio(-1, 1), ratio(1, 1));
    let x = vec![ratio(-1, 1), ratio(-1, 2), ratio(0, 1), ratio(1, 2), ratio(1, 1)];
    let p = vec![ratio(0, 1), ratio(1, 4), ratio(1, 2), ratio(3, 4), ratio(1, 1)];
    let mut i: usize = 0;
    while i < x.len() {
        assert!(u.cdf(x[i]).eq_to(&p[i]));
        i += 1;
    }
}

#[test]
fn inv_cdf() {
    let u = Uniform::new(ratio(-1, 1), ratio(1, 1));
    let x = vec![ratio(-1, 1), ratio(-1, 2), ratio(0, 1), ratio(1, 2), ratio(1, 1)];
    let p = vec![ratio(0, 1), ratio(1, 4), ratio(1, 2), ratio(3, 4), ratio(1, 1)];
    let mut i: usize = 0;
    while i < p.len() {
        assert!(u.inv_cdf(p[i]).eq_to(&x[i]));
        i += 1;
    }
}

#[test]
fn sample() {
    let lo = ratio(7, 1);
    let hi = ratio(42, 1);
    let mut sampler = Sampler(Uniform::new(lo, hi), TestSource::new(42));
    let samples: Vec<Ratio> = sampler.take(100);
    assert!(samples.len() == 100);
    for s in samples {
        assert!(lo.le(&s) && s.le(&hi));
    }
}

#[test]
fn cdf_saturates_outside_support() {
    let u = Uniform::new(ratio(-1, 1), ratio(1, 1));
    assert!(u.cdf(ratio(-2, 1)).eq_to(&ratio(0, 1)));
    assert!(u.cdf(ratio(2, 1)).eq_to(&ratio(1, 1)));
}

#[test]
fn cdf_degenerate_interval() {
    let five = ratio(5, 1);
    let u = Uniform::new(five, five);
    assert!(u.cdf(five).eq_to(&ratio(0, 1)));
    assert!(u.cdf(ratio(51, 10)).eq_to(&ratio(1, 1)));
    assert!(u.cdf(ratio(4, 1)).eq_to(&ratio(0, 1)));
}

#[test]
fn cdf_inverted_interval_is_defined() {
    let u = Uniform::new(ratio(1, 1), ratio(-1, 1));
    assert!(u.cdf(ratio(0, 1)).eq_to(&ratio(0, 1)));
}

#[test]
fn inv_cdf_hits_the_endpoints() {
    let u = Uniform::new(ratio(7, 1), ratio(42, 1));
    assert!(u.inv_cdf(ratio(0, 1)).eq_to(&ratio(7, 1)));
    assert!(u.inv_cdf(ratio(1, 1)).eq_to(&ratio(42, 1)));
}

#[test]
fn inv_cdf_extrapolates() {
    let u = Uniform::new(ratio(0, 1), ratio(1, 1));
    assert!(u.inv_cdf(ratio(2, 1)).eq_to(&ratio(2, 1)));
    assert!(u.inv_cdf(ratio(-1, 2)).eq_to(&ratio(-1, 2)));
}

#[test]
fn cdf_inverts_inv_cdf() {
    let u = Uniform::new(ratio(-1, 1), ratio(1, 1));
    let p = vec![ratio(0, 1), ratio(1, 4), ratio(1, 2), ratio(3, 4), ratio(1, 1)];
    for q in p {
        assert!(u.cdf(u.inv_cdf(q)).eq_to(&q));
    }
}

#[test]
fn sampler_yields_exactly_the_prefix_asked_for() {
    let mut sampler = Sampler(
        Uniform::new(ratio(0, 1), ratio(1, 1)),
        TestSource::new(7),
    );
    let none_taken: Vec<Ratio> = sampler.take(0);
    assert!(none_taken.len() == 0);
    let seven: Vec<Ratio> = sampler.take(7);
    assert!(seven.len() == 7);
    let next: Option<Ratio> = sampler.next();
    assert!(next.is_some());
}

#[test]
fn test_source_stays_in_the_unit_interval() {
    let zero = ratio(0, 1);
    let one = ratio(1, 1);
    let mut source = TestSource::new(1);
    let mut i: usize = 0;
    while i < 1000 {
        let u = source.next_unit();
        assert!(zero.le(&u) && !one.le(&u));
        i += 1;
    }
}

#[test]
fn cdf_is_monotone() {
    let u = Uniform::new(ratio(-1, 1), ratio(1, 1));
    let points = vec![
        ratio(-3, 1),
        ratio(-1, 1),
        ratio(-1, 3),
        ratio(0, 1),
        ratio(2, 3),
        ratio(1, 1),
        ratio(4, 1),
    ];
    let mut i: usize = 1;
    while i < points.len() {
        assert!(u.cdf(points[i - 1]).le(&u.cdf(points[i])));
        i += 1;
    }
}

#[test]
fn ratio_comparisons_are_by_value() {
    assert!(ratio(1, 2).eq_to(&ratio(2, 4)));
    assert!(ratio(1, 3).le(&ratio(1, 2)));
    assert!(!ratio(1, 2).le(&ratio(1, 3)));
    assert!(ratio(-1, 2).le(&ratio(1, 4)));
}
