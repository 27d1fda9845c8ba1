use rand::SeedableRng;
use rand_pcg::Pcg64;
use ruler::pred::{decimal_text, parse_usize, sample_value, sampler, BVar, Constant, IVar, Type};

#[test]
fn sampler_gives_integers() {
    let mut rng = Pcg64::seed_from_u64(5);
    let samples = sampler(&mut rng, 100);
    assert_eq!(samples.len(), 100);
    assert!(samples.iter().all(|c| matches!(c, Constant::Int(_))));
    let small = samples
        .iter()
        .filter(|c| matches!(c, Constant::Int(n) if *n < 10))
        .count();
    assert!(small > 0);
}

#[test]
fn sampler_is_deterministic_for_a_seed() {
    let mut a = Pcg64::seed_from_u64(7);
    let mut b = Pcg64::seed_from_u64(7);
    assert_eq!(sampler(&mut a, 20), sampler(&mut b, 20));
}

#[test]
fn sample_value_law() {
    assert_eq!(sample_value(true, 23), Constant::Int(3));
    assert_eq!(sample_value(false, 23), Constant::Int(23));
}

#[test]
fn constant_text() {
    assert_eq!(Constant::Int(42).to_text(), "42");
    assert_eq!(Constant::Int(0).to_text(), "0");
    assert_eq!(Constant::Bool(true).to_text(), "true");
    assert_eq!(Constant::from_text("42"), Some(Constant::Int(42)));
    assert_eq!(Constant::from_text("+7"), Some(Constant::Int(7)));
    assert_eq!(Constant::from_text("false"), Some(Constant::Bool(false)));
    assert_eq!(Constant::from_text("x"), None);
    assert_eq!(Constant::from_text("-1"), None);
    assert_eq!(Constant::Int(3).to_int(), Some(3));
    assert_eq!(Constant::Int(3).to_bool(), None);
    assert_eq!(Constant::Bool(true).to_bool(), Some(true));
    assert_eq!(Constant::Bool(true).get_type(), Type::Bool);
    assert_eq!(Type::Int.to_text(), "i");
}

#[test]
fn decimal_round_trip() {
    assert_eq!(decimal_text(usize::MAX), usize::MAX.to_string());
    assert_eq!(parse_usize(&usize::MAX.to_string()), Some(usize::MAX));
    assert_eq!(parse_usize("18446744073709551616"), None);
    assert_eq!(parse_usize(""), None);
    assert_eq!(parse_usize("+"), None);
    assert_eq!(parse_usize("12a"), None);
}

#[test]
fn variables_by_prefix() {
    assert!(BVar::from_text("b_x").is_some());
    assert!(BVar::from_text("i_x").is_none());
    assert_eq!(IVar::from_text("i_y").map(|v| v.0), Some("i_y".to_string()));
    assert!(IVar::from_text("i").is_none());
}
