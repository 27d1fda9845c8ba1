use num::bigint::{BigInt, Sign};
use num::rational::Ratio;
use num::traits::{Pow, Signed, ToPrimitive};
use vstd::arithmetic::power::pow;
use vstd::prelude::*;

verus! {

#[verifier::external_type_specification]
#[verifier::external_body]
pub struct ExBigInt(BigInt);

#[verifier::external_type_specification]
#[verifier::external_body]
#[verifier::reject_recursive_types(T)]
pub struct ExRatio<T>(Ratio<T>);

/// A rational number of the rational language: a sign and the base-2^32
/// digits (least significant first) of its numerator and of its denominator.
#[derive(Clone, Debug)]
pub struct Rational {
    pub negative: bool,
    pub numer: Vec<u32>,
    pub denom: Vec<u32>,
}

/// The value of base-2^32 digits, least significant first.
pub open spec fn limbs_value(v: Seq<u32>) -> nat
    decreases v.len(),
{
    if v.len() == 0 {
        0
    } else {
        v[0] as nat + 4294967296 * limbs_value(v.drop_first())
    }
}

/// The numerator, with its sign.
pub open spec fn num_of(r: Rational) -> int {
    if r.negative {
        -(limbs_value(r.numer@) as int)
    } else {
        limbs_value(r.numer@) as int
    }
}

/// The denominator.
pub open spec fn den_of(r: Rational) -> int {
    limbs_value(r.denom@) as int
}

/// A rational with a positive denominator.
pub open spec fn valid(r: Rational) -> bool {
    den_of(r) > 0
}

/// `r` is the fraction `n / d`.
pub open spec fn is_fraction(r: Rational, n: int, d: int) -> bool {
    valid(r) && num_of(r) * d == n * den_of(r)
}

/// The integer part of `r`, rounded toward zero.
pub open spec fn trunc_of(r: Rational) -> int {
    if num_of(r) >= 0 {
        num_of(r) / den_of(r)
    } else {
        -((-num_of(r)) / den_of(r))
    }
}

/// Relies on `BigInt::from_slice` and `Ratio::new`: the fraction that the
/// digits write. `Ratio::new` panics on a zero denominator, which `requires`
/// leaves out.
#[verifier::external_body]
fn to_ratio(r: &Rational) -> (q: Ratio<BigInt>)
    requires
        valid(*r),
{
    let sign = if r.negative {
        Sign::Minus
    } else {
        Sign::Plus
    };
    Ratio::new(BigInt::from_slice(sign, &r.numer), BigInt::from_slice(Sign::Plus, &r.denom))
}

/// Relies on `BigInt::to_u32_digits`: the sign and digits of the reduced
/// fraction's numerator and denominator.
#[verifier::external_body]
fn from_ratio(q: &Ratio<BigInt>) -> (r: Rational) {
    let (sign, numer) = q.numer().to_u32_digits();
    let (_, denom) = q.denom().to_u32_digits();
    Rational { negative: matches!(sign, Sign::Minus), numer, denom }
}

/// Relies on `Ratio`'s `+`: the exact sum.
#[verifier::external_body]
fn rat_add(a: &Rational, b: &Rational) -> (r: Rational)
    requires
        valid(*a),
        valid(*b),
    ensures
        is_fraction(r, num_of(*a) * den_of(*b) + num_of(*b) * den_of(*a), den_of(*a) * den_of(*b)),
{
    from_ratio(&(to_ratio(a) + to_ratio(b)))
}

/// Relies on `Ratio`'s `-`: the exact difference.
#[verifier::external_body]
fn rat_sub(a: &Rational, b: &Rational) -> (r: Rational)
    requires
        valid(*a),
        valid(*b),
    ensures
        is_fraction(r, num_of(*a) * den_of(*b) - num_of(*b) * den_of(*a), den_of(*a) * den_of(*b)),
{
    from_ratio(&(to_ratio(a) - to_ratio(b)))
}

/// Relies on `Ratio`'s `*`: the exact product.
#[verifier::external_body]
fn rat_mul(a: &Rational, b: &Rational) -> (r: Rational)
    requires
        valid(*a),
        valid(*b),
    ensures
        is_fraction(r, num_of(*a) * num_of(*b), den_of(*a) * den_of(*b)),
{
    from_ratio(&(to_ratio(a) * to_ratio(b)))
}

/// Relies on `Ratio`'s `/`: the exact quotient; it panics on a zero divisor,
/// which `requires` leaves out.
#[verifier::external_body]
fn rat_div(a: &Rational, b: &Rational) -> (r: Rational)
    requires
        valid(*a),
        valid(*b),
        num_of(*b) != 0,
    ensures
        is_fraction(r, num_of(*a) * den_of(*b), den_of(*a) * num_of(*b)),
{
    from_ratio(&(to_ratio(a) / to_ratio(b)))
}

/// Relies on `Ratio`'s unary `-`.
#[verifier::external_body]
fn rat_neg(a: &Rational) -> (r: Rational)
    requires
        valid(*a),
    ensures
        is_fraction(r, -num_of(*a), den_of(*a)),
{
    from_ratio(&(-to_ratio(a)))
}

/// Relies on `Signed::abs` of `Ratio`.
#[verifier::external_body]
fn rat_abs(a: &Rational) -> (r: Rational)
    requires
        valid(*a),
    ensures
        is_fraction(
            r,
            if num_of(*a) >= 0 {
                num_of(*a)
            } else {
                -num_of(*a)
            },
            den_of(*a),
        ),
{
    from_ratio(&to_ratio(a).abs())
}

/// Relies on `Ratio::recip`; it panics on zero, which `requires` leaves out.
#[verifier::external_body]
fn rat_recip(a: &Rational) -> (r: Rational)
    requires
        valid(*a),
        num_of(*a) != 0,
    ensures
        is_fraction(r, den_of(*a), num_of(*a)),
{
    from_ratio(&to_ratio(a).recip())
}

/// Relies on `Pow<i32>` of `Ratio`: numerator and denominator raised to the
/// power, turned over for a negative exponent (which panics on zero, left
/// out by `requires`).
#[verifier::external_body]
fn rat_pow(a: &Rational, e: i32) -> (r: Rational)
    requires
        valid(*a),
        !(num_of(*a) == 0 && e < 0),
    ensures
        e >= 0 ==> is_fraction(r, pow(num_of(*a), e as nat), pow(den_of(*a), e as nat)),
        e < 0 ==> is_fraction(r, pow(den_of(*a), (-e) as nat), pow(num_of(*a), (-e) as nat)),
{
    from_ratio(&Pow::pow(to_ratio(a), e))
}

/// Relies on `ToPrimitive::to_i32` of `Ratio`: the integer part, rounded
/// toward zero, where it fits in `i32`.
#[verifier::external_body]
fn rat_to_i32(a: &Rational) -> (r: Option<i32>)
    requires
        valid(*a),
    ensures
        r is Some <==> i32::MIN <= trunc_of(*a) <= i32::MAX,
        r matches Some(e) ==> e as int == trunc_of(*a),
{
    to_ratio(a).to_i32()
}

/// Whether the rational is zero.
pub fn is_zero(r: &Rational) -> (b: bool)
    ensures
        b == (num_of(*r) == 0),
{
    let mut i: usize = 0;
    while i < r.numer.len()
        invariant
            i <= r.numer@.len(),
            forall|j: int| 0 <= j < i ==> r.numer@[j] == 0,
        decreases r.numer@.len() - i,
    {
        if r.numer[i] != 0 {
            proof {
                lemma_limbs_nonzero(r.numer@, i as int);
            }
            return false;
        }
        i += 1;
    }
    proof {
        lemma_limbs_zero(r.numer@);
    }
    true
}

proof fn lemma_limbs_zero(v: Seq<u32>)
    requires
        forall|j: int| 0 <= j < v.len() ==> v[j] == 0,
    ensures
        limbs_value(v) == 0,
    decreases v.len(),
{
    if v.len() > 0 {
        lemma_limbs_zero(v.drop_first());
    }
}

proof fn lemma_limbs_nonzero(v: Seq<u32>, i: int)
    requires
        0 <= i < v.len(),
        v[i] != 0,
    ensures
        limbs_value(v) > 0,
    decreases v.len(),
{
    if i > 0 {
        lemma_limbs_nonzero(v.drop_first(), i - 1);
    }
}

/// The operators of the rational language.
#[derive(Clone, Copy, Debug, PartialEq, Eq, Structural)]
pub enum MathOp {
    Add,
    Sub,
    Mul,
    Div,
    Pow,
    Abs,
    Recip,
    Neg,
}

/// The number of arguments the operator takes.
pub open spec fn arity(op: MathOp) -> nat {
    match op {
        MathOp::Abs | MathOp::Recip | MathOp::Neg => 1,
        _ => 2,
    }
}

/// Whether the operator is defined on the arguments: no division by zero, no
/// reciprocal of zero, and a power only where the exponent's integer part
/// fits in `i32` and zero is not raised to a negative power.
pub open spec fn op_defined(op: MathOp, xs: Seq<Rational>) -> bool {
    match op {
        MathOp::Div => num_of(xs[1]) != 0,
        MathOp::Recip => num_of(xs[0]) != 0,
        MathOp::Pow => i32::MIN <= trunc_of(xs[1]) <= i32::MAX && !(num_of(xs[0]) == 0
            && trunc_of(xs[1]) < 0),
        _ => true,
    }
}

/// `q` is the operator's value on the arguments.
pub open spec fn op_result(op: MathOp, xs: Seq<Rational>, q: Rational) -> bool {
    let a = xs[0];
    match op {
        MathOp::Add => is_fraction(q, num_of(a) * den_of(xs[1]) + num_of(xs[1]) * den_of(a), den_of(a) * den_of(xs[1])),
        MathOp::Sub => is_fraction(q, num_of(a) * den_of(xs[1]) - num_of(xs[1]) * den_of(a), den_of(a) * den_of(xs[1])),
        MathOp::Mul => is_fraction(q, num_of(a) * num_of(xs[1]), den_of(a) * den_of(xs[1])),
        MathOp::Div => is_fraction(q, num_of(a) * den_of(xs[1]), den_of(a) * num_of(xs[1])),
        MathOp::Pow => {
            let e = trunc_of(xs[1]);
            if e >= 0 {
                is_fraction(q, pow(num_of(a), e as nat), pow(den_of(a), e as nat))
            } else {
                is_fraction(q, pow(den_of(a), (-e) as nat), pow(num_of(a), (-e) as nat))
            }
        },
        MathOp::Abs => is_fraction(q, if num_of(a) >= 0 { num_of(a) } else { -num_of(a) }, den_of(a)),
        MathOp::Recip => is_fraction(q, den_of(a), num_of(a)),
        MathOp::Neg => is_fraction(q, -num_of(a), den_of(a)),
    }
}

/// Every argument is defined at position `i`.
pub open spec fn all_defined(args: Seq<Seq<Option<Rational>>>, i: int) -> bool {
    forall|k: int| 0 <= k < args.len() ==> i < (#[trigger] args[k]).len() && args[k][i] is Some
}

/// The arguments' values at position `i`.
pub open spec fn values_at(args: Seq<Seq<Option<Rational>>>, i: int) -> Seq<Rational> {
    Seq::new(args.len(), |k: int| args[k][i]->Some_0)
}

pub open spec fn args_view(args: Seq<Vec<Option<Rational>>>) -> Seq<Seq<Option<Rational>>> {
    args.map_values(|v: Vec<Option<Rational>>| v@)
}

/// Two rationals with the same sign and digits.
pub open spec fn same_value(a: Rational, b: Rational) -> bool {
    num_of(a) == num_of(b) && den_of(a) == den_of(b)
}

proof fn lemma_same_values(op: MathOp, xs: Seq<Rational>, ys: Seq<Rational>)
    requires
        xs.len() == ys.len(),
        xs.len() == arity(op),
        forall|j: int| 0 <= j < xs.len() ==> same_value(#[trigger] xs[j], ys[j]),
    ensures
        op_defined(op, xs) == op_defined(op, ys),
        forall|q: Rational| op_result(op, xs, q) == op_result(op, ys, q),
{
    assert(same_value(xs[0], ys[0]));
    if xs.len() > 1 {
        assert(same_value(xs[1], ys[1]));
    }
}

/// A copy of the rational.
pub fn copy_rational(x: &Rational) -> (r: Rational)
    ensures
        r.negative == x.negative,
        r.numer@ == x.numer@,
        r.denom@ == x.denom@,
{
    Rational { negative: x.negative, numer: copy_limbs(&x.numer), denom: copy_limbs(&x.denom) }
}

fn copy_limbs(v: &Vec<u32>) -> (r: Vec<u32>)
    ensures
        r@ == v@,
{
    let mut out: Vec<u32> = Vec::new();
    let mut i: usize = 0;
    while i < v.len()
        invariant
            i <= v@.len(),
            out@ == v@.subrange(0, i as int),
        decreases v@.len() - i,
    {
        out.push(v[i]);
        i += 1;
        assert(out@ =~= v@.subrange(0, i as int));
    }
    assert(v@.subrange(0, v@.len() as int) =~= v@);
    out
}

/// The operator's value on the arguments at one position.
fn apply_math(op: MathOp, xs: &Vec<Rational>) -> (r: Option<Rational>)
    requires
        xs@.len() == arity(op),
        forall|k: int| 0 <= k < xs@.len() ==> valid(#[trigger] xs@[k]),
    ensures
        r is Some <==> op_defined(op, xs@),
        r matches Some(q) ==> op_result(op, xs@, q),
{
    match op {
        MathOp::Add => Some(rat_add(&xs[0], &xs[1])),
        MathOp::Sub => Some(rat_sub(&xs[0], &xs[1])),
        MathOp::Mul => Some(rat_mul(&xs[0], &xs[1])),
        MathOp::Div => if is_zero(&xs[1]) {
            None
        } else {
            Some(rat_div(&xs[0], &xs[1]))
        },
        MathOp::Pow => match rat_to_i32(&xs[1]) {
            Some(e) => if e < 0 && is_zero(&xs[0]) {
                None
            } else {
                Some(rat_pow(&xs[0], e))
            },
            None => None,
        },
        MathOp::Abs => Some(rat_abs(&xs[0])),
        MathOp::Recip => if is_zero(&xs[0]) {
            None
        } else {
            Some(rat_recip(&xs[0]))
        },
        MathOp::Neg => Some(rat_neg(&xs[0])),
    }
}

/// The operator applied position by position over `n` positions: undefined
/// where an argument is undefined or the operator is not defined on the
/// arguments (division by zero, reciprocal of zero, a power whose exponent
/// does not fit), else the operator's value.
pub fn eval_math(op: MathOp, args: &Vec<Vec<Option<Rational>>>, n: usize) -> (r: Vec<Option<Rational>>)
    requires
        args@.len() == arity(op),
        forall|k: int, i: int|
            0 <= k < args@.len() && 0 <= i < args@[k]@.len() && (#[trigger] args@[k]@[i]) is Some
                ==> valid(args@[k]@[i]->Some_0),
    ensures
        r@.len() == n,
        forall|i: int|
            0 <= i < n ==> ((#[trigger] r@[i]) is Some <==> (all_defined(args_view(args@), i)
                && op_defined(op, values_at(args_view(args@), i)))),
        forall|i: int|
            0 <= i < n && (#[trigger] r@[i]) is Some ==> op_result(
                op,
                values_at(args_view(args@), i),
                r@[i]->Some_0,
            ),
{
    let ghost av = args_view(args@);
    let mut out: Vec<Option<Rational>> = Vec::new();
    let mut i: usize = 0;
    while i < n
        invariant
            i <= n,
            av == args_view(args@),
            args@.len() == arity(op),
            forall|k: int, j: int|
                0 <= k < args@.len() && 0 <= j < args@[k]@.len() && (#[trigger] args@[k]@[j]) is Some
                    ==> valid(args@[k]@[j]->Some_0),
            out@.len() == i,
            forall|j: int|
                0 <= j < i ==> ((#[trigger] out@[j]) is Some <==> (all_defined(av, j) && op_defined(
                    op,
                    values_at(av, j),
                ))),
            forall|j: int|
                0 <= j < i && (#[trigger] out@[j]) is Some ==> op_result(op, values_at(av, j), out@[j]->Some_0),
        decreases n - i,
    {
        let mut xs: Vec<Rational> = Vec::new();
        let mut all = true;
        let mut k: usize = 0;
        while k < args.len()
            invariant
                k <= args@.len(),
                av == args_view(args@),
                forall|q: int, j: int|
                    0 <= q < args@.len() && 0 <= j < args@[q]@.len() && (#[trigger] args@[q]@[j]) is Some
                        ==> valid(args@[q]@[j]->Some_0),
                all <==> forall|j: int| 0 <= j < k ==> i < (#[trigger] av[j]).len() && av[j][i as int] is Some,
                all ==> xs@.len() == k,
                all ==> forall|j: int|
                    0 <= j < k ==> same_value(#[trigger] xs@[j], av[j][i as int]->Some_0),
            decreases args@.len() - k,
        {
            assert(av[k as int] == args@[k as int]@);
            if i < args[k].len() {
                match &args[k][i] {
                    Some(x) => {
                        if all {
                            xs.push(copy_rational(x));
                        }
                    },
                    None => {
                        all = false;
                    },
                }
            } else {
                all = false;
            }
            k += 1;
        }
        let v = if all {
            let ghost vs = values_at(av, i as int);
            assert(forall|j: int| 0 <= j < vs.len() ==> same_value(#[trigger] xs@[j], vs[j]));
            let r = apply_math(op, &xs);
            proof {
                lemma_same_values(op, xs@, vs);
            }
            r
        } else {
            None
        };
        out.push(v);
        i += 1;
    }
    out
}

/// `b` raised to `e`, where that fits in `usize`.
pub fn power(b: usize, e: u32) -> (r: usize)
    requires
        b > 0,
        pow(b as int, e as nat) <= usize::MAX,
    ensures
        r == pow(b as int, e as nat),
{
    let mut acc: usize = 1;
    let mut k: u32 = 0;
    proof {
        reveal(pow);
    }
    while k < e
        invariant
            b > 0,
            k <= e,
            pow(b as int, e as nat) <= usize::MAX,
            acc == pow(b as int, k as nat),
        decreases e - k,
    {
        proof {
            reveal(pow);
            vstd::arithmetic::power::lemma_pow_increases(b as nat, (k + 1) as nat, e as nat);
            assert(pow(b as int, (k + 1) as nat) == b * pow(b as int, k as nat));
        }
        acc = acc * b;
        k += 1;
    }
    acc
}

/// The column of samples that variable `i` of `nvars` takes over the
/// constants: every combination of constants over the variables is one row,
/// so variable `i` holds constant `(j / nc^i) % nc` in row `j`, for the
/// `nc^nvars` rows.
pub fn chain_consts(constants: &Vec<Rational>, nvars: u32, i: u32) -> (r: Vec<Option<Rational>>)
    requires
        i < nvars,
        pow(constants@.len() as int, nvars as nat) <= usize::MAX,
    ensures
        r@.len() == pow(constants@.len() as int, nvars as nat),
        forall|j: int|
            0 <= j < r@.len() ==> (#[trigger] r@[j]) is Some && same_value(
                r@[j]->Some_0,
                constants@[(j / pow(constants@.len() as int, i as nat)) % constants@.len() as int],
            ),
{
    let nc = constants.len();
    if nc == 0 {
        proof {
            reveal(pow);
            assert(pow(0, nvars as nat) == 0 * pow(0, (nvars - 1) as nat));
        }
        return Vec::new();
    }
    proof {
        vstd::arithmetic::power::lemma_pow_increases(nc as nat, i as nat, nvars as nat);
        vstd::arithmetic::power::lemma_pow_positive(nc as int, i as nat);
    }
    let nrows = power(nc, nvars);
    let m = power(nc, i);
    let mut out: Vec<Option<Rational>> = Vec::new();
    let mut j: usize = 0;
    while j < nrows
        invariant
            nc == constants@.len(),
            nc > 0,
            m > 0,
            m == pow(nc as int, i as nat),
            j <= nrows,
            out@.len() == j,
            forall|q: int|
                0 <= q < j ==> (#[trigger] out@[q]) is Some && same_value(
                    out@[q]->Some_0,
                    constants@[(q / m as int) % nc as int],
                ),
        decreases nrows - j,
    {
        let idx = (j / m) % nc;
        out.push(Some(copy_rational(&constants[idx])));
        j += 1;
    }
    out
}

/// The fraction `n / d` of two integers, undefined where `d` is zero.
pub fn fraction(n: &Rational, d: &Rational) -> (r: Option<Rational>)
    requires
        valid(*n),
        valid(*d),
    ensures
        r is Some <==> num_of(*d) != 0,
        r matches Some(q) ==> is_fraction(q, num_of(*n) * den_of(*d), den_of(*n) * num_of(*d)),
{
    if is_zero(d) {
        None
    } else {
        Some(rat_div(n, d))
    }
}

/// The samples of input variable `i` of `nvars`: the fractions of the drawn
/// numerator and denominator pairs, every one defined since no drawn
/// denominator is zero, then its column of the constants' combinations.
pub fn variable_samples(
    draws: &Vec<(Rational, Rational)>,
    constants: &Vec<Rational>,
    nvars: u32,
    i: u32,
) -> (r: Vec<Option<Rational>>)
    requires
        i < nvars,
        pow(constants@.len() as int, nvars as nat) <= usize::MAX,
        draws@.len() + pow(constants@.len() as int, nvars as nat) <= usize::MAX,
        forall|j: int|
            0 <= j < draws@.len() ==> valid((#[trigger] draws@[j]).0) && valid(draws@[j].1) && num_of(
                draws@[j].1,
            ) != 0,
    ensures
        r@.len() == draws@.len() + pow(constants@.len() as int, nvars as nat),
        forall|j: int|
            0 <= j < draws@.len() ==> (#[trigger] r@[j]) is Some && is_fraction(
                r@[j]->Some_0,
                num_of(draws@[j].0) * den_of(draws@[j].1),
                den_of(draws@[j].0) * num_of(draws@[j].1),
            ),
        forall|j: int|
            draws@.len() <= j < r@.len() ==> (#[trigger] r@[j]) is Some && same_value(
                r@[j]->Some_0,
                constants@[((j - draws@.len()) / pow(constants@.len() as int, i as nat))
                    % constants@.len() as int],
            ),
{
    let n_samples = draws.len();
    let mut out: Vec<Option<Rational>> = Vec::new();
    let mut k: usize = 0;
    while k < n_samples
        invariant
            n_samples == draws@.len(),
            k <= n_samples,
            out@.len() == k,
            forall|j: int|
                0 <= j < draws@.len() ==> valid((#[trigger] draws@[j]).0) && valid(draws@[j].1)
                    && num_of(draws@[j].1) != 0,
            forall|j: int|
                0 <= j < k ==> (#[trigger] out@[j]) is Some && is_fraction(
                    out@[j]->Some_0,
                    num_of(draws@[j].0) * den_of(draws@[j].1),
                    den_of(draws@[j].0) * num_of(draws@[j].1),
                ),
        decreases n_samples - k,
    {
        out.push(fraction(&draws[k].0, &draws[k].1));
        k += 1;
    }
    let column = chain_consts(constants, nvars, i);
    let mut j: usize = 0;
    while j < column.len()
        invariant
            out@.len() == n_samples + j,
            j <= column@.len(),
            column@.len() == pow(constants@.len() as int, nvars as nat),
            n_samples + column@.len() <= usize::MAX,
            n_samples == draws@.len(),
            forall|q: int|
                0 <= q < n_samples ==> (#[trigger] out@[q]) is Some && is_fraction(
                    out@[q]->Some_0,
                    num_of(draws@[q].0) * den_of(draws@[q].1),
                    den_of(draws@[q].0) * num_of(draws@[q].1),
                ),
            forall|q: int|
                0 <= q < column@.len() ==> (#[trigger] column@[q]) is Some && same_value(
                    column@[q]->Some_0,
                    constants@[(q / pow(constants@.len() as int, i as nat)) % constants@.len() as int],
                ),
            forall|q: int|
                n_samples <= q < out@.len() ==> (#[trigger] out@[q]) is Some && same_value(
                    out@[q]->Some_0,
                    column@[q - n_samples]->Some_0,
                ),
        decreases column@.len() - j,
    {
        let c = match &column[j] {
            Some(x) => Some(copy_rational(x)),
            None => None,
        };
        out.push(c);
        j += 1;
    }
    out
}

} // verus!
