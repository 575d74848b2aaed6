use lucky_numbers::chart::chart_extent;
use lucky_numbers::construction::{LuckyNumberConstruction, ValueMultiplicityPair};
use lucky_numbers::engine::LuckyNumberEngine;
use lucky_numbers::factors::{is_prime_number, prime_weights};

fn terms_of(c: &LuckyNumberConstruction) -> Vec<(i64, i64)> {
    c.terms().iter().map(|p| (p.value, p.multiplicity)).collect()
}

fn findings(engine: &mut LuckyNumberEngine, lo: i64, hi: i64) -> Vec<(i64, Vec<Vec<(i64, i64)>>)> {
    let mut out = Vec::new();
    for v in lo..=hi {
        let cs: Vec<Vec<(i64, i64)>> = engine.constructions(v).iter().map(terms_of).collect();
        out.push((v, cs));
    }
    out
}

#[test]
fn term_sum_is_product() {
    let p = ValueMultiplicityPair { value: 6, multiplicity: 3 };
    assert_eq!(p.sum(), 18);
    let q = ValueMultiplicityPair { value: -4, multiplicity: 5 };
    assert_eq!(q.sum(), -20);
}

#[test]
fn construction_from_partials() {
    let c = LuckyNumberConstruction::from_factor_partials(6, &vec![2, 3], &vec![1, 0, 3]);
    assert_eq!(terms_of(&c), vec![(6, 3), (3, 1)]);
    assert_eq!(c.calulate_value(), 21);
    let d = LuckyNumberConstruction::from_factor_partials(6, &vec![2, 3], &vec![1, 1, 1]);
    assert_eq!(terms_of(&d), vec![(6, 1), (3, 1), (2, 1)]);
    assert_eq!(d.calulate_value(), 11);
}

#[test]
fn construction_without_weights() {
    let c = LuckyNumberConstruction::from_factor_partials(1, &vec![], &vec![1]);
    assert_eq!(terms_of(&c), vec![(1, 1)]);
    assert_eq!(c.calulate_value(), 1);
}

#[test]
fn weights_are_prime_divisors_below_base() {
    assert_eq!(prime_weights(12), vec![2, 3]);
    assert_eq!(prime_weights(30), vec![2, 3, 5]);
    assert_eq!(prime_weights(8), vec![2]);
    assert_eq!(prime_weights(7), Vec::<i64>::new());
    assert_eq!(prime_weights(1), Vec::<i64>::new());
}

#[test]
fn primality() {
    assert!(is_prime_number(2));
    assert!(is_prime_number(13));
    assert!(!is_prime_number(1));
    assert!(!is_prime_number(0));
    assert!(!is_prime_number(15));
    assert!(!is_prime_number(-7));
}

#[test]
fn new_engine_is_empty() {
    let mut e = LuckyNumberEngine::new();
    assert_eq!(e.luckiness(1), 0);
    assert!(!e.is_lucky(0));
    assert!(e.constructions(1).is_empty());
}

#[test]
fn base_one_gives_value_one() {
    let mut e = LuckyNumberEngine::new();
    e.generate_range(1, 10);
    assert!(e.is_lucky(1));
    let cs = e.constructions(1);
    assert_eq!(cs.len(), 1);
    assert_eq!(terms_of(&cs[0]), vec![(1, 1)]);
}

#[test]
fn luckiness_matches_constructions() {
    let mut e = LuckyNumberEngine::new();
    e.generate_range(1, 10);
    for v in 1..=10 {
        let n = e.luckiness(v);
        assert_eq!(n as usize, e.constructions(v).len());
        assert_eq!(e.is_lucky(v), n > 0);
    }
}

#[test]
fn luckiness_up_to_twenty() {
    let mut e = LuckyNumberEngine::new();
    e.generate_range(1, 20);
    let expected = [1, 0, 0, 1, 0, 0, 0, 0, 1, 1, 1, 0, 0, 0, 0, 1, 0, 1, 0, 1];
    for v in 1..=20 {
        assert_eq!(e.luckiness(v), expected[(v - 1) as usize], "value {}", v);
    }
    assert_eq!(e.luckiness(0), 0);
    assert_eq!(e.luckiness(21), 0);
}

#[test]
fn constructions_up_to_twenty() {
    let mut e = LuckyNumberEngine::new();
    e.generate_range(1, 20);
    assert_eq!(terms_of(&e.constructions(4)[0]), vec![(2, 2)]);
    assert_eq!(terms_of(&e.constructions(10)[0]), vec![(4, 2), (2, 1)]);
    assert_eq!(terms_of(&e.constructions(11)[0]), vec![(6, 1), (3, 1), (2, 1)]);
    assert_eq!(terms_of(&e.constructions(18)[0]), vec![(6, 2), (3, 2)]);
    assert_eq!(terms_of(&e.constructions(20)[0]), vec![(6, 3), (2, 1)]);
    assert_eq!(e.constructions(20)[0].calulate_value(), 20);
}

#[test]
fn range_filters_values() {
    let mut e = LuckyNumberEngine::new();
    e.generate_range(5, 12);
    assert_eq!(e.luckiness(4), 0);
    assert_eq!(e.luckiness(1), 0);
    assert_eq!(e.luckiness(9), 1);
    assert_eq!(e.luckiness(10), 1);
    assert_eq!(e.luckiness(16), 0);
}

#[test]
fn single_value_range() {
    let mut e = LuckyNumberEngine::new();
    e.generate_range(11, 11);
    assert_eq!(e.luckiness(11), 1);
    assert_eq!(e.luckiness(10), 0);
}

#[test]
fn reset_discipline() {
    let mut a = LuckyNumberEngine::new();
    a.generate_range(5, 5);
    a.generate_range(1, 20);
    let mut b = LuckyNumberEngine::new();
    b.generate_range(1, 20);
    assert_eq!(findings(&mut a, 1, 20), findings(&mut b, 1, 20));
}

#[test]
fn extending_twice_changes_nothing() {
    let mut e = LuckyNumberEngine::new();
    e.generate_range(1, 40);
    e.generate_lucky_numbers_up_to(30);
    let first = findings(&mut e, 1, 40);
    e.generate_lucky_numbers_up_to(30);
    assert_eq!(findings(&mut e, 1, 40), first);
}

#[test]
fn extending_keeps_earlier_findings() {
    let mut e = LuckyNumberEngine::new();
    e.generate_range(1, 20);
    let before = findings(&mut e, 1, 20);
    e.generate_lucky_numbers_up_to(30);
    let after = findings(&mut e, 1, 20);
    for (b, a) in before.iter().zip(after.iter()) {
        assert_eq!(&a.1[..b.1.len()], &b.1[..]);
    }
    // every construction of a base is at least the base, so none is added below 21
    assert_eq!(after, before);
    let mut fresh = LuckyNumberEngine::new();
    fresh.generate_range(1, 30);
    assert_eq!(findings(&mut fresh, 1, 20), after);
}

#[test]
fn reset_forgets_findings() {
    let mut e = LuckyNumberEngine::new();
    e.generate_range(1, 10);
    e.reset();
    assert_eq!(e.luckiness(1), 0);
    e.generate_lucky_numbers_up_to(10);
    assert_eq!(e.luckiness(1), 1);
}

#[test]
fn realized_values_at_least_base() {
    let mut e = LuckyNumberEngine::new();
    e.generate_range(1, 60);
    for v in 1..=60 {
        for c in e.constructions(v) {
            let t = terms_of(c);
            assert!(c.calulate_value() >= t[0].0);
            assert_eq!(c.calulate_value(), v);
        }
    }
}

#[test]
fn rendering_of_terms() {
    let c = LuckyNumberConstruction::from_factor_partials(6, &vec![2, 3], &vec![1, 1, 1]);
    assert_eq!(c.render(), "6 + 3 + 2");
    let d = LuckyNumberConstruction::from_factor_partials(12, &vec![2, 3], &vec![3, 0, 2]);
    assert_eq!(d.render(), "12*2 + 6*3");
    let one = LuckyNumberConstruction::from_factor_partials(1, &vec![], &vec![1]);
    assert_eq!(one.render(), "1");
    let neg = LuckyNumberConstruction::from_factor_partials(105, &vec![5], &vec![-2, 10]);
    assert_eq!(neg.render(), "105*10 + 21");
}

#[test]
fn rendering_from_engine() {
    let mut e = LuckyNumberEngine::new();
    e.generate_range(1, 20);
    assert_eq!(e.constructions(1)[0].render(), "1");
    assert_eq!(e.constructions(10)[0].render(), "4*2 + 2");
    assert_eq!(e.constructions(18)[0].render(), "6*2 + 3*2");
    assert_eq!(e.constructions(20)[0].render(), "6*3 + 2");
}

#[test]
fn chart_extent_of_pairs() {
    assert_eq!(chart_extent(&vec![(3, 1), (7, 0), (5, 4)]), (3, 7, 4));
    assert_eq!(chart_extent(&vec![]), (u32::MAX, 0, 0));
    assert_eq!(chart_extent(&vec![(9, 2)]), (9, 9, 2));
}
