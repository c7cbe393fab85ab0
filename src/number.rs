use vstd::arithmetic::div_mod::{lemma_div_multiples_vanish, lemma_fundamental_div_mod};
use vstd::prelude::*;

verus! {

/// An exact rational number, as a mathematical pair.
pub struct Ratio {
    pub num: int,
    pub den: int,
}

/// A number as mathematics sees it: a rational, an infinity, or not a
/// number.
pub enum ExtRatio {
    Finite(Ratio),
    PosInf,
    NegInf,
    NaN,
}

/// The numbers of the language: rationals whose numerator and (positive)
/// denominator fit in an `i64`, the two infinities and not-a-number.
/// Arithmetic is total: a result that does not fit is approximated, and one
/// too large in magnitude becomes an infinity.
#[derive(Debug, Clone, Copy)]
pub struct Number {
    num: i64,
    den: i64,
}

impl View for Number {
    type V = ExtRatio;

    closed spec fn view(&self) -> ExtRatio {
        if self.den > 0 {
            ExtRatio::Finite(Ratio { num: self.num as int, den: self.den as int })
        } else if self.num > 0 {
            ExtRatio::PosInf
        } else if self.num < 0 {
            ExtRatio::NegInf
        } else {
            ExtRatio::NaN
        }
    }
}

/// A ratio that a `Number` can hold.
pub open spec fn fits(r: Ratio) -> bool {
    i64::MIN <= r.num <= i64::MAX && 0 < r.den <= i64::MAX
}

pub open spec fn ratio_eq(a: Ratio, b: Ratio) -> bool {
    a.num * b.den == b.num * a.den
}

pub open spec fn ratio_lt(a: Ratio, b: Ratio) -> bool {
    a.num * b.den < b.num * a.den
}

pub open spec fn ratio_add(a: Ratio, b: Ratio) -> Ratio {
    Ratio { num: a.num * b.den + b.num * a.den, den: a.den * b.den }
}

pub open spec fn ratio_sub(a: Ratio, b: Ratio) -> Ratio {
    Ratio { num: a.num * b.den - b.num * a.den, den: a.den * b.den }
}

pub open spec fn ratio_mul(a: Ratio, b: Ratio) -> Ratio {
    Ratio { num: a.num * b.num, den: a.den * b.den }
}

/// The quotient, with its denominator made positive; meaningful only for a
/// non-zero divisor.
pub open spec fn ratio_div(a: Ratio, b: Ratio) -> Ratio {
    if b.num < 0 {
        Ratio { num: -(a.num * b.den), den: -(a.den * b.num) }
    } else {
        Ratio { num: a.num * b.den, den: a.den * b.num }
    }
}

pub open spec fn ratio_neg(a: Ratio) -> Ratio {
    Ratio { num: -a.num, den: a.den }
}

/// The greatest common divisor, by Euclid's algorithm.
pub open spec fn gcd(a: nat, b: nat) -> nat
    decreases b,
{
    if b == 0 {
        a
    } else {
        gcd(b, a % b)
    }
}

pub open spec fn abs(x: int) -> nat {
    if x < 0 {
        (-x) as nat
    } else {
        x as nat
    }
}

/// The ratio in lowest terms: numerator and denominator divided by their
/// greatest common divisor.
pub open spec fn reduced(q: Ratio) -> Ratio {
    let g = gcd(abs(q.num), abs(q.den)) as int;
    if g == 0 {
        q
    } else if q.num < 0 {
        Ratio { num: -(abs(q.num) as int / g), den: q.den / g }
    } else {
        Ratio { num: abs(q.num) as int / g, den: q.den / g }
    }
}

/// The greatest common divisor divides both numbers, and is positive unless
/// both are zero.
proof fn lemma_gcd_divides(a: nat, b: nat)
    ensures
        exists|k: int| a == #[trigger] (gcd(a, b) * k),
        exists|k: int| b == #[trigger] (gcd(a, b) * k),
        (a > 0 || b > 0) ==> gcd(a, b) > 0,
    decreases b,
{
    if b == 0 {
        let one: int = 1;
        let zero: int = 0;
        assert(a == gcd(a, b) * one);
        assert(b == gcd(a, b) * zero);
    } else {
        lemma_gcd_divides(b, a % b);
        let g = gcd(b, a % b) as int;
        let k1 = choose|k: int| b == #[trigger] (g * k);
        let k2 = choose|k: int| (a % b) as int == #[trigger] (g * k);
        lemma_fundamental_div_mod(a as int, b as int);
        let m = (a / b) as int;
        assert(a == g * (k1 * m + k2)) by (nonlinear_arith)
            requires
                a == b * m + (a % b) as int,
                b == g * k1,
                (a % b) as int == g * k2,
        ;
        assert(gcd(a, b) == g);
        assert(a == gcd(a, b) * (k1 * m + k2));
        assert(b == gcd(a, b) * k1);
    }
}

/// Reducing keeps the value and a positive denominator.
pub proof fn lemma_reduced(q: Ratio)
    requires
        q.den > 0,
    ensures
        reduced(q).den > 0,
        ratio_eq(reduced(q), q),
{
    let n = abs(q.num);
    let d = abs(q.den);
    lemma_gcd_divides(n, d);
    let g = gcd(n, d) as int;
    let k1 = choose|k: int| n == #[trigger] (g * k);
    let k2 = choose|k: int| d == #[trigger] (g * k);
    lemma_div_multiples_vanish(k1, g);
    lemma_div_multiples_vanish(k2, g);
    assert(n as int / g == k1);
    assert(q.den / g == k2);
    assert(k2 > 0) by (nonlinear_arith)
        requires
            q.den == g * k2,
            q.den > 0,
            g > 0,
    ;
    if q.num < 0 {
        assert(-k1 * q.den == q.num * k2) by (nonlinear_arith)
            requires
                -q.num == g * k1,
                q.den == g * k2,
        ;
    } else {
        assert(k1 * q.den == q.num * k2) by (nonlinear_arith)
            requires
                q.num == g * k1,
                q.den == g * k2,
        ;
    }
}


/// Halves numerator and denominator until both fit in an `i64` or the
/// denominator is one.
pub open spec fn shrink(n: nat, d: nat) -> (nat, nat)
    decreases d,
{
    if (n <= i64::MAX && d <= i64::MAX) || d <= 1 {
        (n, d)
    } else {
        shrink(n / 2, d / 2)
    }
}

/// The number that stands for the rational `q` (with a positive
/// denominator): `q` in lowest terms where that fits; else an approximation
/// whose terms are halved until they fit; else an infinity of `q`'s sign.
pub open spec fn approx(q: Ratio) -> ExtRatio {
    let r = reduced(q);
    if fits(r) {
        ExtRatio::Finite(r)
    } else {
        let (n, d) = shrink(abs(r.num), abs(r.den));
        if n <= i64::MAX && 0 < d <= i64::MAX {
            ExtRatio::Finite(Ratio { num: if r.num < 0 { -n } else { n as int }, den: d as int })
        } else if r.num < 0 {
            ExtRatio::NegInf
        } else {
            ExtRatio::PosInf
        }
    }
}

/// The sign of a number: 1, -1, or 0 for zero and not-a-number.
pub open spec fn sign_of(x: ExtRatio) -> int {
    match x {
        ExtRatio::Finite(r) => if r.num > 0 {
            1
        } else if r.num < 0 {
            -1
        } else {
            0
        },
        ExtRatio::PosInf => 1,
        ExtRatio::NegInf => -1,
        ExtRatio::NaN => 0,
    }
}

/// The infinity of sign `s`; not-a-number for sign 0.
pub open spec fn infinity_of(s: int) -> ExtRatio {
    if s > 0 {
        ExtRatio::PosInf
    } else if s < 0 {
        ExtRatio::NegInf
    } else {
        ExtRatio::NaN
    }
}

pub open spec fn ext_add(a: ExtRatio, b: ExtRatio) -> ExtRatio {
    match (a, b) {
        (ExtRatio::Finite(x), ExtRatio::Finite(y)) => approx(ratio_add(x, y)),
        (ExtRatio::NaN, _) | (_, ExtRatio::NaN) => ExtRatio::NaN,
        (ExtRatio::PosInf, ExtRatio::NegInf) | (ExtRatio::NegInf, ExtRatio::PosInf) => ExtRatio::NaN,
        (ExtRatio::PosInf, _) | (_, ExtRatio::PosInf) => ExtRatio::PosInf,
        _ => ExtRatio::NegInf,
    }
}

pub open spec fn ext_sub(a: ExtRatio, b: ExtRatio) -> ExtRatio {
    match (a, b) {
        (ExtRatio::Finite(x), ExtRatio::Finite(y)) => approx(ratio_sub(x, y)),
        (ExtRatio::NaN, _) | (_, ExtRatio::NaN) => ExtRatio::NaN,
        (ExtRatio::PosInf, ExtRatio::PosInf) | (ExtRatio::NegInf, ExtRatio::NegInf) => ExtRatio::NaN,
        (ExtRatio::PosInf, _) | (_, ExtRatio::NegInf) => ExtRatio::PosInf,
        _ => ExtRatio::NegInf,
    }
}

pub open spec fn ext_mul(a: ExtRatio, b: ExtRatio) -> ExtRatio {
    match (a, b) {
        (ExtRatio::Finite(x), ExtRatio::Finite(y)) => approx(ratio_mul(x, y)),
        (ExtRatio::NaN, _) | (_, ExtRatio::NaN) => ExtRatio::NaN,
        _ => infinity_of(sign_of(a) * sign_of(b)),
    }
}

/// The quotient; a non-zero number over zero is an infinity of its sign, and
/// zero over zero is not a number.
pub open spec fn ext_div(a: ExtRatio, b: ExtRatio) -> ExtRatio {
    match (a, b) {
        (ExtRatio::Finite(x), ExtRatio::Finite(y)) => if y.num == 0 {
            infinity_of(sign_of(a))
        } else {
            approx(ratio_div(x, y))
        },
        (ExtRatio::NaN, _) | (_, ExtRatio::NaN) => ExtRatio::NaN,
        (ExtRatio::Finite(_), _) => ExtRatio::Finite(Ratio { num: 0, den: 1 }),
        (_, ExtRatio::Finite(y)) => infinity_of(
            sign_of(a) * if y.num < 0 {
                -1
            } else {
                1
            },
        ),
        _ => ExtRatio::NaN,
    }
}

pub open spec fn ext_neg(a: ExtRatio) -> ExtRatio {
    match a {
        ExtRatio::Finite(x) => approx(ratio_neg(x)),
        ExtRatio::PosInf => ExtRatio::NegInf,
        ExtRatio::NegInf => ExtRatio::PosInf,
        ExtRatio::NaN => ExtRatio::NaN,
    }
}

/// Equality by value; not-a-number equals nothing.
pub open spec fn ext_eq(a: ExtRatio, b: ExtRatio) -> bool {
    match (a, b) {
        (ExtRatio::Finite(x), ExtRatio::Finite(y)) => ratio_eq(x, y),
        (ExtRatio::PosInf, ExtRatio::PosInf) | (ExtRatio::NegInf, ExtRatio::NegInf) => true,
        _ => false,
    }
}

/// Order by value; not-a-number is unordered.
pub open spec fn ext_lt(a: ExtRatio, b: ExtRatio) -> bool {
    match (a, b) {
        (ExtRatio::Finite(x), ExtRatio::Finite(y)) => ratio_lt(x, y),
        (ExtRatio::NaN, _) | (_, ExtRatio::NaN) => false,
        (ExtRatio::PosInf, _) => false,
        (ExtRatio::NegInf, ExtRatio::NegInf) => false,
        (ExtRatio::NegInf, _) => true,
        (_, ExtRatio::PosInf) => true,
        _ => false,
    }
}

pub open spec fn ext_le(a: ExtRatio, b: ExtRatio) -> bool {
    ext_lt(a, b) || ext_eq(a, b)
}

proof fn lemma_products_fit(an: int, ad: int, bn: int, bd: int)
    requires
        fits(Ratio { num: an, den: ad }),
        fits(Ratio { num: bn, den: bd }),
    ensures
        -0x3FFF_FFFF_FFFF_FFFF_8000_0000_0000_0000 <= an * bd <= 0x3FFF_FFFF_FFFF_FFFF_8000_0000_0000_0000,
        -0x3FFF_FFFF_FFFF_FFFF_8000_0000_0000_0000 <= bn * ad <= 0x3FFF_FFFF_FFFF_FFFF_8000_0000_0000_0000,
        -0x4000_0000_0000_0000_0000_0000_0000_0000 <= an * bn <= 0x4000_0000_0000_0000_0000_0000_0000_0000,
        0 < ad * bd <= 0x4000_0000_0000_0000_0000_0000_0000_0000,
        -0x4000_0000_0000_0000_0000_0000_0000_0000 <= ad * bn <= 0x4000_0000_0000_0000_0000_0000_0000_0000,
{
    assert(-0x3FFF_FFFF_FFFF_FFFF_8000_0000_0000_0000 <= an * bd <= 0x3FFF_FFFF_FFFF_FFFF_8000_0000_0000_0000) by (nonlinear_arith)
        requires
            -0x8000_0000_0000_0000 <= an <= 0x8000_0000_0000_0000,
            0 < bd <= 0x7FFF_FFFF_FFFF_FFFF,
    ;
    assert(-0x3FFF_FFFF_FFFF_FFFF_8000_0000_0000_0000 <= bn * ad <= 0x3FFF_FFFF_FFFF_FFFF_8000_0000_0000_0000) by (nonlinear_arith)
        requires
            -0x8000_0000_0000_0000 <= bn <= 0x8000_0000_0000_0000,
            0 < ad <= 0x7FFF_FFFF_FFFF_FFFF,
    ;
    assert(-0x4000_0000_0000_0000_0000_0000_0000_0000 <= an * bn <= 0x4000_0000_0000_0000_0000_0000_0000_0000) by (nonlinear_arith)
        requires
            -0x8000_0000_0000_0000 <= an <= 0x8000_0000_0000_0000,
            -0x8000_0000_0000_0000 <= bn <= 0x8000_0000_0000_0000,
    ;
    assert(0 < ad * bd <= 0x4000_0000_0000_0000_0000_0000_0000_0000) by (nonlinear_arith)
        requires
            0 < ad <= 0x8000_0000_0000_0000,
            0 < bd <= 0x8000_0000_0000_0000,
    ;
    assert(-0x4000_0000_0000_0000_0000_0000_0000_0000 <= ad * bn <= 0x4000_0000_0000_0000_0000_0000_0000_0000) by (nonlinear_arith)
        requires
            -0x8000_0000_0000_0000 <= bn <= 0x8000_0000_0000_0000,
            0 < ad <= 0x8000_0000_0000_0000,
    ;
}

fn gcd_of(a: u128, b: u128) -> (r: u128)
    ensures
        r == gcd(a as nat, b as nat),
{
    let mut x = a;
    let mut y = b;
    while y != 0
        invariant
            gcd(x as nat, y as nat) == gcd(a as nat, b as nat),
        decreases y,
    {
        let t = x % y;
        x = y;
        y = t;
    }
    x
}

/// The number that stands for `num / den`, computed in 128 bits.
fn approximate(num: i128, den: i128) -> (r: Number)
    requires
        num > i128::MIN,
        den > 0,
    ensures
        r@ == approx(Ratio { num: num as int, den: den as int }),
{
    let a: u128 = if num < 0 {
        (-num) as u128
    } else {
        num as u128
    };
    let g = gcd_of(a, den as u128);
    proof {
        lemma_gcd_divides(a as nat, den as nat);
    }
    let n = a / g;
    let d = den as u128 / g;
    proof {
        if num < 0 {
            let gi = g as int;
            let k = choose|k: int| a as nat == #[trigger] (gcd(a as nat, den as nat) * k);
            assert(a as int == gi * k);
            lemma_div_multiples_vanish(k, gi);
            assert(k > 0) by (nonlinear_arith)
                requires
                    a as int == gi * k,
                    a > 0,
                    gi > 0,
            ;
            assert(n > 0);
        }
    }
    if 0 < d && d <= i64::MAX as u128 {
        if num < 0 && n <= 0x8000_0000_0000_0000u128 {
            return Number { num: (-(n as i128)) as i64, den: d as i64 };
        }
        if num >= 0 && n <= i64::MAX as u128 {
            return Number { num: n as i64, den: d as i64 };
        }
    }
    let mut n = n;
    let mut d = d;
    let ghost start = shrink(n as nat, d as nat);
    while !((n <= i64::MAX as u128 && d <= i64::MAX as u128) || d <= 1)
        invariant
            shrink(n as nat, d as nat) == start,
        decreases d,
    {
        n = n / 2;
        d = d / 2;
    }
    if n <= i64::MAX as u128 && 0 < d && d <= i64::MAX as u128 {
        if num < 0 {
            Number { num: -(n as i64), den: d as i64 }
        } else {
            Number { num: n as i64, den: d as i64 }
        }
    } else if num < 0 {
        Number { num: -1, den: 0 }
    } else {
        Number { num: 1, den: 0 }
    }
}

/// Which kind of number a value is.
enum Kind {
    Finite,
    PosInf,
    NegInf,
    NaN,
}

impl Number {
    #[verifier::type_invariant]
    spec fn well_formed(self) -> bool {
        self.den >= 0 && (self.den == 0 ==> -1 <= self.num <= 1)
    }

    fn kind(&self) -> (k: Kind)
        ensures
            k is Finite <==> self@ is Finite,
            k is PosInf <==> self@ is PosInf,
            k is NegInf <==> self@ is NegInf,
            k is NaN <==> self@ is NaN,
            self@ matches ExtRatio::Finite(r) ==> fits(r) && r.num == self.num && r.den == self.den,
    {
        proof {
            use_type_invariant(self);
        }
        if self.den > 0 {
            Kind::Finite
        } else if self.num > 0 {
            Kind::PosInf
        } else if self.num < 0 {
            Kind::NegInf
        } else {
            Kind::NaN
        }
    }

    /// The number `num / den`, where the denominator is positive.
    pub fn new(num: i64, den: i64) -> (r: Option<Number>)
        ensures
            r is Some <==> den > 0,
            r matches Some(n) ==> n@ == ExtRatio::Finite(Ratio { num: num as int, den: den as int }),
    {
        if den > 0 {
            Some(Number { num, den })
        } else {
            None
        }
    }

    /// The whole number `n`.
    pub fn from_int(n: i64) -> (r: Number)
        ensures
            r@ == ExtRatio::Finite(Ratio { num: n as int, den: 1 }),
    {
        Number { num: n, den: 1 }
    }

    /// Positive infinity.
    pub fn infinity() -> (r: Number)
        ensures
            r@ == ExtRatio::PosInf,
    {
        Number { num: 1, den: 0 }
    }

    /// Negative infinity.
    pub fn neg_infinity() -> (r: Number)
        ensures
            r@ == ExtRatio::NegInf,
    {
        Number { num: -1, den: 0 }
    }

    /// Not a number.
    pub fn nan() -> (r: Number)
        ensures
            r@ == ExtRatio::NaN,
    {
        Number { num: 0, den: 0 }
    }

    /// The numerator: for an infinity its sign, for not-a-number zero.
    pub fn numerator(&self) -> (r: i64)
        ensures
            self@ matches ExtRatio::Finite(q) ==> r == q.num,
            self@ is PosInf ==> r == 1,
            self@ is NegInf ==> r == -1,
            self@ is NaN ==> r == 0,
    {
        proof {
            use_type_invariant(self);
        }
        self.num
    }

    /// The denominator: positive for a rational, zero otherwise.
    pub fn denominator(&self) -> (r: i64)
        ensures
            self@ matches ExtRatio::Finite(q) ==> r == q.den && r > 0,
            !(self@ is Finite) ==> r == 0,
    {
        proof {
            use_type_invariant(self);
        }
        self.den
    }

    pub fn is_nan(&self) -> (r: bool)
        ensures
            r == (self@ is NaN),
    {
        match self.kind() {
            Kind::NaN => true,
            _ => false,
        }
    }

    pub fn is_infinite(&self) -> (r: bool)
        ensures
            r == (self@ is PosInf || self@ is NegInf),
    {
        match self.kind() {
            Kind::PosInf | Kind::NegInf => true,
            _ => false,
        }
    }

    fn sign(&self) -> (r: i64)
        ensures
            r == sign_of(self@),
            -1 <= r <= 1,
    {
        match self.kind() {
            Kind::Finite => if self.num > 0 {
                1
            } else if self.num < 0 {
                -1
            } else {
                0
            },
            Kind::PosInf => 1,
            Kind::NegInf => -1,
            Kind::NaN => 0,
        }
    }

    fn infinity_of(s: i64) -> (r: Number)
        ensures
            r@ == infinity_of(s as int),
    {
        if s > 0 {
            Number::infinity()
        } else if s < 0 {
            Number::neg_infinity()
        } else {
            Number::nan()
        }
    }

    /// The sum.
    pub fn add(&self, o: &Number) -> (r: Number)
        ensures
            r@ == ext_add(self@, o@),
    {
        match (self.kind(), o.kind()) {
            (Kind::Finite, Kind::Finite) => {
                proof {
                    lemma_products_fit(self.num as int, self.den as int, o.num as int, o.den as int);
                }
                let n = self.num as i128 * o.den as i128 + o.num as i128 * self.den as i128;
                let d = self.den as i128 * o.den as i128;
                approximate(n, d)
            },
            (Kind::NaN, _) | (_, Kind::NaN) => Number::nan(),
            (Kind::PosInf, Kind::NegInf) | (Kind::NegInf, Kind::PosInf) => Number::nan(),
            (Kind::PosInf, _) | (_, Kind::PosInf) => Number::infinity(),
            _ => Number::neg_infinity(),
        }
    }

    /// The difference.
    pub fn sub(&self, o: &Number) -> (r: Number)
        ensures
            r@ == ext_sub(self@, o@),
    {
        match (self.kind(), o.kind()) {
            (Kind::Finite, Kind::Finite) => {
                proof {
                    lemma_products_fit(self.num as int, self.den as int, o.num as int, o.den as int);
                }
                let n = self.num as i128 * o.den as i128 - o.num as i128 * self.den as i128;
                let d = self.den as i128 * o.den as i128;
                approximate(n, d)
            },
            (Kind::NaN, _) | (_, Kind::NaN) => Number::nan(),
            (Kind::PosInf, Kind::PosInf) | (Kind::NegInf, Kind::NegInf) => Number::nan(),
            (Kind::PosInf, _) | (_, Kind::NegInf) => Number::infinity(),
            _ => Number::neg_infinity(),
        }
    }

    /// The product.
    pub fn mul(&self, o: &Number) -> (r: Number)
        ensures
            r@ == ext_mul(self@, o@),
    {
        match (self.kind(), o.kind()) {
            (Kind::Finite, Kind::Finite) => {
                proof {
                    lemma_products_fit(self.num as int, self.den as int, o.num as int, o.den as int);
                }
                let n = self.num as i128 * o.num as i128;
                let d = self.den as i128 * o.den as i128;
                approximate(n, d)
            },
            (Kind::NaN, _) | (_, Kind::NaN) => Number::nan(),
            _ => {
                let (x, y) = (self.sign(), o.sign());
                assert(-1 <= x * y <= 1) by (nonlinear_arith)
                    requires
                        -1 <= x <= 1,
                        -1 <= y <= 1,
                ;
                Number::infinity_of(x * y)
            },
        }
    }

    /// The quotient.
    pub fn div(&self, o: &Number) -> (r: Number)
        ensures
            r@ == ext_div(self@, o@),
    {
        match (self.kind(), o.kind()) {
            (Kind::Finite, Kind::Finite) => {
                if o.num == 0 {
                    return Number::infinity_of(self.sign());
                }
                proof {
                    lemma_products_fit(self.num as int, self.den as int, o.num as int, o.den as int);
                    let (sd, on) = (self.den as int, o.num as int);
                    if on < 0 {
                        assert(sd * on < 0) by (nonlinear_arith)
                            requires
                                sd > 0,
                                on < 0,
                        ;
                    } else {
                        assert(sd * on > 0) by (nonlinear_arith)
                            requires
                                sd > 0,
                                on > 0,
                        ;
                    }
                }
                let n = self.num as i128 * o.den as i128;
                let d = self.den as i128 * o.num as i128;
                if o.num < 0 {
                    approximate(-n, -d)
                } else {
                    approximate(n, d)
                }
            },
            (Kind::NaN, _) | (_, Kind::NaN) => Number::nan(),
            (Kind::Finite, _) => Number::from_int(0),
            (_, Kind::Finite) => {
                let s = if o.num < 0 {
                    -1
                } else {
                    1
                };
                let x = self.sign();
                assert(-1 <= x * s <= 1) by (nonlinear_arith)
                    requires
                        -1 <= x <= 1,
                        s == 1 || s == -1,
                ;
                Number::infinity_of(x * s)
            },
            _ => Number::nan(),
        }
    }

    /// The negation.
    pub fn neg(&self) -> (r: Number)
        ensures
            r@ == ext_neg(self@),
    {
        match self.kind() {
            Kind::Finite => approximate(-(self.num as i128), self.den as i128),
            Kind::PosInf => Number::neg_infinity(),
            Kind::NegInf => Number::infinity(),
            Kind::NaN => Number::nan(),
        }
    }

    /// Whether the two numbers are equal in value.
    pub fn equals(&self, o: &Number) -> (r: bool)
        ensures
            r == ext_eq(self@, o@),
    {
        match (self.kind(), o.kind()) {
            (Kind::Finite, Kind::Finite) => {
                proof {
                    lemma_products_fit(self.num as int, self.den as int, o.num as int, o.den as int);
                }
                self.num as i128 * o.den as i128 == o.num as i128 * self.den as i128
            },
            (Kind::PosInf, Kind::PosInf) | (Kind::NegInf, Kind::NegInf) => true,
            _ => false,
        }
    }

    /// Whether `self` is less than `o` in value.
    pub fn less(&self, o: &Number) -> (r: bool)
        ensures
            r == ext_lt(self@, o@),
    {
        match (self.kind(), o.kind()) {
            (Kind::Finite, Kind::Finite) => {
                proof {
                    lemma_products_fit(self.num as int, self.den as int, o.num as int, o.den as int);
                }
                (self.num as i128 * o.den as i128) < o.num as i128 * self.den as i128
            },
            (Kind::NaN, _) | (_, Kind::NaN) => false,
            (Kind::PosInf, _) => false,
            (Kind::NegInf, Kind::NegInf) => false,
            (Kind::NegInf, _) => true,
            (_, Kind::PosInf) => true,
            _ => false,
        }
    }

    /// Whether `self` is at most `o` in value.
    pub fn less_equal(&self, o: &Number) -> (r: bool)
        ensures
            r == ext_le(self@, o@),
    {
        self.less(o) || self.equals(o)
    }
}

} // verus!
