use ruler::rational::{chain_consts, eval_math, is_zero, variable_samples, MathOp, Rational};

fn q(n: i64, d: u32) -> Rational {
    let mag = n.unsigned_abs();
    let mut numer = vec![];
    if mag != 0 {
        numer.push(mag as u32);
        if mag >> 32 != 0 {
            numer.push((mag >> 32) as u32);
        }
    }
    Rational { negative: n < 0, numer, denom: vec![d] }
}

fn value(r: &Rational) -> (i64, u32) {
    let mut n: i64 = 0;
    for (k, limb) in r.numer.iter().enumerate() {
        n += (*limb as i64) << (32 * k);
    }
    if r.negative {
        n = -n;
    }
    (n, r.denom[0])
}

fn col(v: &[Option<Rational>]) -> Vec<Option<(i64, u32)>> {
    v.iter().map(|x| x.as_ref().map(value)).collect()
}

#[test]
fn division_by_zero_is_undefined() {
    let a = vec![Some(q(0, 1)), Some(q(3, 2)), None];
    let out = eval_math(MathOp::Div, &vec![a.clone(), a.clone()], 3);
    assert_eq!(col(&out), vec![None, Some((1, 1)), None]);
    // so (/ ?a ?a) => 1 disagrees with the constant 1 where ?a is 0
    let one = vec![Some(q(1, 1)); 3];
    assert_ne!(col(&out), col(&one));
}

#[test]
fn arithmetic_is_exact() {
    let a = vec![Some(q(1, 2)), Some(q(-1, 3))];
    let b = vec![Some(q(1, 3)), Some(q(1, 1))];
    assert_eq!(col(&eval_math(MathOp::Add, &vec![a.clone(), b.clone()], 2)), vec![Some((5, 6)), Some((2, 3))]);
    assert_eq!(col(&eval_math(MathOp::Sub, &vec![a.clone(), b.clone()], 2)), vec![Some((1, 6)), Some((-4, 3))]);
    assert_eq!(col(&eval_math(MathOp::Mul, &vec![a.clone(), b.clone()], 2)), vec![Some((1, 6)), Some((-1, 3))]);
    assert_eq!(col(&eval_math(MathOp::Neg, &vec![a.clone()], 2)), vec![Some((-1, 2)), Some((1, 3))]);
    assert_eq!(col(&eval_math(MathOp::Abs, &vec![a.clone()], 2)), vec![Some((1, 2)), Some((1, 3))]);
    assert_eq!(col(&eval_math(MathOp::Recip, &vec![a.clone()], 2)), vec![Some((2, 1)), Some((-3, 1))]);
}

#[test]
fn power_needs_a_fitting_exponent() {
    let base = vec![Some(q(2, 3)), Some(q(0, 1)), Some(q(2, 1))];
    let expo = vec![Some(q(5, 2)), Some(q(-1, 1)), Some(q(1 << 40, 1))];
    let out = eval_math(MathOp::Pow, &vec![base, expo], 3);
    assert_eq!(col(&out), vec![Some((4, 9)), None, None]);
}

#[test]
fn recip_of_zero_is_undefined() {
    let out = eval_math(MathOp::Recip, &vec![vec![Some(q(0, 1))]], 1);
    assert_eq!(col(&out), vec![None]);
    assert!(is_zero(&q(0, 1)));
    assert!(!is_zero(&q(-2, 1)));
}

#[test]
fn chain_consts_covers_every_row() {
    let consts = vec![q(-1, 1), q(0, 1), q(1, 1)];
    let first = chain_consts(&consts, 2, 0);
    let second = chain_consts(&consts, 2, 1);
    let vals = |c: &Vec<Option<Rational>>| col(c).into_iter().map(|x| x.unwrap().0).collect::<Vec<_>>();
    assert_eq!(vals(&first), vec![-1, 0, 1, -1, 0, 1, -1, 0, 1]);
    assert_eq!(vals(&second), vec![-1, -1, -1, 0, 0, 0, 1, 1, 1]);
}

#[test]
fn variable_samples_are_all_defined() {
    let draws = vec![(q(3, 1), q(-6, 1)), (q(0, 1), q(5, 1))];
    let consts = vec![q(0, 1), q(1, 1)];
    let column = variable_samples(&draws, &consts, 2, 1);
    assert_eq!(
        col(&column),
        vec![Some((-1, 2)), Some((0, 1)), Some((0, 1)), Some((0, 1)), Some((1, 1)), Some((1, 1))]
    );
}
