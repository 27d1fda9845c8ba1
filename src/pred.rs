use rand::Rng;
use rand_pcg::{Lcg128Xsl64, Pcg64};
use vstd::prelude::*;

verus! {

#[verifier::external_type_specification]
#[verifier::external_body]
pub struct ExLcg128Xsl64(Lcg128Xsl64);

/// A constant of the predicate language: a boolean or a machine integer.
#[derive(Clone, Copy, Debug, PartialEq, Eq, Structural, PartialOrd, Ord, Hash)]
pub enum Constant {
    Bool(bool),
    Int(usize),
}

/// The sort of a predicate-language term.
#[derive(Clone, Copy, Debug, PartialEq, Eq, Structural, PartialOrd, Ord, Hash)]
pub enum Type {
    Bool,
    Int,
}

pub open spec fn digit_chars() -> Seq<char> {
    seq!['0', '1', '2', '3', '4', '5', '6', '7', '8', '9']
}

/// The decimal digits of `n`, without leading zeros.
pub open spec fn decimal(n: nat) -> Seq<char>
    decreases n,
{
    if n < 10 {
        seq![digit_chars()[n as int]]
    } else {
        decimal(n / 10) + seq![digit_chars()[(n % 10) as int]]
    }
}

/// The value of a string of decimal digits.
pub open spec fn digits_value(s: Seq<char>) -> nat
    decreases s.len(),
{
    if s.len() == 0 {
        0
    } else {
        digits_value(s.drop_last()) * 10 + digit_of(s.last())
    }
}

pub open spec fn is_digit(c: char) -> bool {
    '0' <= c && c <= '9'
}

pub open spec fn digit_of(c: char) -> nat {
    (c as u32 - '0' as u32) as nat
}

/// The text without its leading `+`, if it has one.
pub open spec fn unsigned_part(s: Seq<char>) -> Seq<char> {
    if s.len() > 0 && s[0] == '+' {
        s.drop_first()
    } else {
        s
    }
}

/// Whether the text is a decimal number, with an optional `+` sign.
pub open spec fn is_decimal(s: Seq<char>) -> bool {
    unsigned_part(s).len() > 0 && forall|i: int|
        0 <= i < unsigned_part(s).len() ==> is_digit(#[trigger] unsigned_part(s)[i])
}

/// The value of a decimal number, sign dropped.
pub open spec fn decimal_value(s: Seq<char>) -> nat {
    digits_value(unsigned_part(s))
}

/// The text of `n` in decimal.
pub fn decimal_text(n: usize) -> (r: String)
    ensures
        r@ == decimal(n as nat),
    decreases n,
{
    let digits = "0123456789";
    proof {
        reveal_strlit("0123456789");
        assert(digits@ =~= digit_chars());
    }
    if n < 10 {
        String::from_str(digits.substring_char(n, n + 1))
    } else {
        let mut out = decimal_text(n / 10);
        let d = n % 10;
        out.append(digits.substring_char(d, d + 1));
        out
    }
}

/// The number that the text writes in decimal, where it is one that fits in
/// `usize`.
pub fn parse_usize(s: &str) -> (r: Option<usize>)
    ensures
        r matches Some(n) ==> is_decimal(s@) && decimal_value(s@) == n as nat,
        r is None ==> !is_decimal(s@) || decimal_value(s@) > usize::MAX,
{
    let len = s.unicode_len();
    let start: usize = if len > 0 && s.get_char(0) == '+' {
        1
    } else {
        0
    };
    let ghost d = unsigned_part(s@);
    assert(d =~= s@.subrange(start as int, len as int));
    if start >= len {
        assert(d.len() == 0);
        return None;
    }
    let mut k: usize = start;
    while k < len
        invariant
            len == s@.len(),
            start <= k <= len,
            d == s@.subrange(start as int, len as int),
            d == unsigned_part(s@),
            forall|j: int| start <= j < k ==> is_digit(#[trigger] s@[j]),
        decreases len - k,
    {
        let c = s.get_char(k);
        if !('0' <= c && c <= '9') {
            assert(d[k - start] == s@[k as int]);
            assert(!is_digit(unsigned_part(s@)[k - start]));
            assert(!is_decimal(s@));
            return None;
        }
        k += 1;
    }
    assert forall|j: int| 0 <= j < d.len() implies is_digit(#[trigger] d[j]) by {
        assert(d[j] == s@[start + j]);
    }
    let mut value: usize = 0;
    let mut i: usize = start;
    while i < len
        invariant
            len == s@.len(),
            start <= i <= len,
            d == s@.subrange(start as int, len as int),
            d == unsigned_part(s@),
            forall|j: int| 0 <= j < d.len() ==> is_digit(#[trigger] d[j]),
            value as nat == digits_value(s@.subrange(start as int, i as int)),
        decreases len - i,
    {
        let c = s.get_char(i);
        assert(c == d[i - start]);
        let digit = (c as u32 - '0' as u32) as usize;
        let ghost pre = s@.subrange(start as int, i as int);
        assert(s@.subrange(start as int, i + 1).drop_last() =~= pre);
        assert(d.subrange(0, i - start + 1) =~= s@.subrange(start as int, i + 1));
        assert(d.subrange(0, i - start + 1).last() == c);
        assert(digits_value(d.subrange(0, i - start + 1)) == value as nat * 10 + digit as nat);
        match value.checked_mul(10) {
            Some(v10) => match v10.checked_add(digit) {
                Some(v) => {
                    value = v;
                },
                None => {
                    proof {
                        lemma_digits_prefix(d, (i - start + 1) as int);
                    }
                    return None;
                },
            },
            None => {
                proof {
                    lemma_digits_prefix(d, (i - start + 1) as int);
                }
                return None;
            },
        }
        i += 1;
    }
    assert(s@.subrange(start as int, len as int) == d);
    Some(value)
}

/// A prefix of a digit string has no larger value than the whole.
proof fn lemma_digits_prefix(d: Seq<char>, k: int)
    requires
        0 <= k <= d.len(),
        forall|i: int| 0 <= i < d.len() ==> is_digit(#[trigger] d[i]),
    ensures
        digits_value(d.subrange(0, k)) <= digits_value(d),
    decreases d.len() - k,
{
    if k < d.len() {
        lemma_digits_prefix(d, k + 1);
        let p = d.subrange(0, k + 1);
        assert(p.drop_last() =~= d.subrange(0, k));
    } else {
        assert(d.subrange(0, k) =~= d);
    }
}

/// The constant that a text writes: an integer in decimal that fits in
/// `usize`, else `true` or `false`.
pub open spec fn constant_of(s: Seq<char>) -> Option<Constant> {
    if is_decimal(s) && decimal_value(s) <= usize::MAX {
        Some(Constant::Int(decimal_value(s) as usize))
    } else if s == "true"@ {
        Some(Constant::Bool(true))
    } else if s == "false"@ {
        Some(Constant::Bool(false))
    } else {
        None
    }
}

impl Constant {
    /// The integer, for an integer constant.
    pub fn to_int(&self) -> (r: Option<usize>)
        ensures
            r == match *self {
                Constant::Int(n) => Some(n),
                Constant::Bool(_) => None::<usize>,
            },
    {
        match self {
            Constant::Int(n) => Some(*n),
            Constant::Bool(_) => None,
        }
    }

    /// The truth value, for a boolean constant.
    pub fn to_bool(&self) -> (r: Option<bool>)
        ensures
            r == match *self {
                Constant::Bool(b) => Some(b),
                Constant::Int(_) => None::<bool>,
            },
    {
        match self {
            Constant::Bool(b) => Some(*b),
            Constant::Int(_) => None,
        }
    }

    /// The constant's text: `true`, `false`, or the integer in decimal.
    pub fn to_text(&self) -> (r: String)
        ensures
            r@ == match *self {
                Constant::Bool(true) => "true"@,
                Constant::Bool(false) => "false"@,
                Constant::Int(n) => decimal(n as nat),
            },
    {
        match self {
            Constant::Bool(true) => String::from_str("true"),
            Constant::Bool(false) => String::from_str("false"),
            Constant::Int(n) => decimal_text(*n),
        }
    }

    /// The constant that the text writes: an integer in decimal, else `true`
    /// or `false`.
    pub fn from_text(s: &str) -> (r: Option<Constant>)
        ensures
            r == constant_of(s@),
    {
        match parse_usize(s) {
            Some(n) => Some(Constant::Int(n)),
            None => {
                if crate::sexp::text_eq(s, "true") {
                    Some(Constant::Bool(true))
                } else if crate::sexp::text_eq(s, "false") {
                    Some(Constant::Bool(false))
                } else {
                    None
                }
            },
        }
    }

    /// The constant's type.
    pub fn get_type(&self) -> (r: Type)
        ensures
            r == match *self {
                Constant::Bool(_) => Type::Bool,
                Constant::Int(_) => Type::Int,
            },
    {
        match self {
            Constant::Bool(_) => Type::Bool,
            Constant::Int(_) => Type::Int,
        }
    }
}

impl Type {
    /// The type's text: `b` or `i`.
    pub fn to_text(&self) -> (r: String)
        ensures
            r@ == match *self {
                Type::Bool => "b"@,
                Type::Int => "i"@,
            },
    {
        match self {
            Type::Bool => String::from_str("b"),
            Type::Int => String::from_str("i"),
        }
    }
}

/// A boolean variable of the predicate language: a name starting with `b_`.
#[derive(Clone, Debug, PartialEq, Eq, Hash)]
pub struct BVar(pub String);

/// An integer variable of the predicate language: a name starting with `i_`.
#[derive(Clone, Debug, PartialEq, Eq, Hash)]
pub struct IVar(pub String);

/// Whether the text starts with the two characters `a` and `b`.
fn has_prefix(s: &str, a: char, b: char) -> (r: bool)
    ensures
        r == (s@.len() >= 2 && s@[0] == a && s@[1] == b),
{
    s.unicode_len() >= 2 && s.get_char(0) == a && s.get_char(1) == b
}

impl BVar {
    /// The variable of that name, where the name starts with `b_`.
    pub fn from_text(s: &str) -> (r: Option<BVar>)
        ensures
            r is Some <==> (s@.len() >= 2 && s@[0] == 'b' && s@[1] == '_'),
            r matches Some(v) ==> v.0@ == s@,
    {
        if has_prefix(s, 'b', '_') {
            Some(BVar(String::from_str(s)))
        } else {
            None
        }
    }
}

impl IVar {
    /// The variable of that name, where the name starts with `i_`.
    pub fn from_text(s: &str) -> (r: Option<IVar>)
        ensures
            r is Some <==> (s@.len() >= 2 && s@[0] == 'i' && s@[1] == '_'),
            r matches Some(v) ==> v.0@ == s@,
    {
        if has_prefix(s, 'i', '_') {
            Some(IVar(String::from_str(s)))
        } else {
            None
        }
    }
}

/// Relies on `rand::Rng::gen::<bool>`: a fair coin.
#[verifier::external_body]
fn draw_bool(rng: &mut Pcg64) -> (r: bool) {
    rng.gen::<bool>()
}

/// Relies on `rand::Rng::gen::<usize>`: any `usize`.
#[verifier::external_body]
fn draw_usize(rng: &mut Pcg64) -> (r: usize) {
    rng.gen::<usize>()
}

/// The sample that a coin and a draw give: the draw modulo 10 when the coin
/// shows true, else the draw itself.
pub fn sample_value(flip: bool, raw: usize) -> (r: Constant)
    ensures
        r == if flip {
            Constant::Int(raw % 10)
        } else {
            Constant::Int(raw)
        },
{
    if flip {
        Constant::Int(raw % 10)
    } else {
        Constant::Int(raw)
    }
}

/// Samples for the fuzzer: each is, by a fair coin, an integer below 10 or
/// any integer, so that small values come up often.
pub fn sampler(rng: &mut Pcg64, num_samples: usize) -> (r: Vec<Constant>)
    ensures
        r@.len() == num_samples,
        forall|i: int| 0 <= i < r@.len() ==> #[trigger] r@[i] is Int,
{
    let mut ret: Vec<Constant> = Vec::new();
    let mut i: usize = 0;
    while i < num_samples
        invariant
            i <= num_samples,
            ret@.len() == i,
            forall|k: int| 0 <= k < ret@.len() ==> #[trigger] ret@[k] is Int,
        decreases num_samples - i,
    {
        let flip = draw_bool(rng);
        let raw = draw_usize(rng);
        ret.push(sample_value(flip, raw));
        i += 1;
    }
    ret
}

} // verus!
