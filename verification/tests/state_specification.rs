use biodivine_algo_smt_inference::{Confidence, StateSpecification};

#[test]
fn confidence_lies_above_zero_and_is_at_most_one() {
    assert!(Confidence::new(0, 1).is_none());
    assert!(Confidence::new(0, 0).is_none());
    assert!(Confidence::new(1, 0).is_none());
    assert!(Confidence::new(1, 1).is_some());
    assert!(Confidence::new(1, 1_000_000).is_some());
    assert!(Confidence::new(1_000_001, 1_000_000).is_none());
    assert!(Confidence::new(2, 1).is_none());
    assert!(Confidence::new(u128::MAX, u128::MAX).is_some());
    assert!(Confidence::new(u128::MAX - 1, u128::MAX).is_some());
    assert!(Confidence::new(u128::MAX, u128::MAX - 1).is_none());
}

#[test]
fn confidence_of_one_is_recognised() {
    assert!(Confidence::new(1, 1).unwrap().is_one());
    assert!(Confidence::new(7, 7).unwrap().is_one());
    assert!(!Confidence::new(6, 7).unwrap().is_one());
    assert!(Confidence::one().is_one());
    assert!(!Confidence::half().is_one());
    let c = Confidence::new(3, 4).unwrap();
    assert_eq!((c.numerator(), c.denominator()), (3, 4));
    assert_eq!((Confidence::half().numerator(), Confidence::half().denominator()), (1, 2));
    assert_eq!((Confidence::one().numerator(), Confidence::one().denominator()), (1, 1));
}

#[test]
fn required_and_optional_assertions_split_the_specification() {
    let half = Confidence::half();
    let third = Confidence::new(1, 3).unwrap();
    let whole = Confidence::new(5, 5).unwrap();
    let mut specification = StateSpecification::new();
    specification.assert_may(4, true, &half);
    specification.assert_must(2, false);
    specification.assert_may(9, false, &whole);
    specification.assert_may(0, true, &third);
    specification.assert_must(7, true);
    assert_eq!(specification.len(), 5);

    let required = specification.make_required_assertion_map();
    let optional = specification.make_optional_assertion_map();
    assert_eq!(required, vec![(2, false), (7, true), (9, false)]);
    assert_eq!(optional, vec![(0, (true, third)), (4, (true, half))]);
    assert_eq!(required.len() + optional.len(), specification.len());
    for (variable, _) in &required {
        assert!(optional.iter().all(|(other, _)| other != variable));
    }
}

#[test]
fn a_new_assertion_takes_the_place_of_the_old_one() {
    let half = Confidence::half();
    let mut specification = StateSpecification::default();
    specification.assert_must(3, true);
    specification.assert_may(3, false, &half);
    assert_eq!(specification.make_required_assertion_map(), vec![]);
    assert_eq!(specification.make_optional_assertion_map(), vec![(3, (false, half))]);
    specification.assert_must(3, false);
    assert_eq!(specification.make_required_assertion_map(), vec![(3, false)]);
    assert_eq!(specification.make_optional_assertion_map(), vec![]);
    assert_eq!(specification.len(), 1);
    assert_eq!(specification.entry(0).variable, 3);
    assert!(specification.entry(0).confidence.is_one());
}

#[test]
fn an_empty_specification_has_no_parts() {
    let specification = StateSpecification::new();
    assert_eq!(specification.len(), 0);
    assert!(specification.make_required_assertion_map().is_empty());
    assert!(specification.make_optional_assertion_map().is_empty());
    assert!(specification.is_within(0));
}

#[test]
fn a_copy_holds_the_same_assertions() {
    let mut specification = StateSpecification::new();
    specification.assert_must(1, true);
    specification.assert_may(0, false, &Confidence::half());
    let copy = specification.clone();
    specification.assert_must(5, true);
    assert_eq!(copy.make_required_assertion_map(), vec![(1, true)]);
    assert_eq!(copy.make_optional_assertion_map(), vec![(0, (false, Confidence::half()))]);
    assert_eq!(specification.len(), 3);
}

#[test]
fn components_are_checked_against_a_bound() {
    let mut specification = StateSpecification::new();
    specification.assert_must(1, true);
    specification.assert_must(4, true);
    assert!(specification.is_within(5));
    assert!(!specification.is_within(4));
    assert!(!specification.is_within(0));
}
