use crate::natural::{is_multiple, lemma_exact_division, Natural};
use crate::scalar::Scalar;
use vstd::prelude::*;

verus! {

/// The integer with the magnitude `n`, negative where `negative` says so.
pub open spec fn signed(negative: bool, n: nat) -> int {
    if negative {
        -(n as int)
    } else {
        n as int
    }
}

/// The quotient of the integer `n` and the integer `d`, as a real number.
pub open spec fn quotient(n: int, d: int) -> real {
    (n as real) / (d as real)
}

/// The real number of a product of integers is the product of their real numbers.
pub proof fn lemma_real_product(a: int, b: int)
    ensures
        (a * b) as real == (a as real) * (b as real),
    decreases
            if a >= 0 {
                a
            } else {
                -a
            },
{
    if a == 0 {
        assert((a as real) * (b as real) == 0real) by (nonlinear_arith)
            requires
                a as real == 0real,
        ;
    } else if a > 0 {
        lemma_real_product(a - 1, b);
        assert(a * b == (a - 1) * b + b) by (nonlinear_arith);
        assert((a as real) * (b as real) == ((a - 1) as real) * (b as real) + (b as real))
            by (nonlinear_arith)
            requires
                a as real == ((a - 1) as real) + 1real,
        ;
    } else {
        lemma_real_product(a + 1, b);
        assert(a * b == (a + 1) * b - b) by (nonlinear_arith);
        assert((a as real) * (b as real) == ((a + 1) as real) * (b as real) - (b as real))
            by (nonlinear_arith)
            requires
                a as real == ((a + 1) as real) - 1real,
        ;
    }
}

/// Fractions are added over the product of their denominators.
pub proof fn lemma_quotient_sum(a: int, p: int, b: int, q: int)
    requires
        p != 0,
        q != 0,
    ensures
        p * q != 0,
        quotient(a * q + b * p, p * q) == quotient(a, p) + quotient(b, q),
{
    lemma_real_product(a, q);
    lemma_real_product(b, p);
    lemma_real_product(p, q);
    assert(p * q != 0) by (nonlinear_arith)
        requires
            p != 0,
            q != 0,
    ;
    let ar = a as real;
    let br = b as real;
    let pr = p as real;
    let qr = q as real;
    assert((ar * qr + br * pr) / (pr * qr) == ar / pr + br / qr) by (nonlinear_arith)
        requires
            pr != 0real,
            qr != 0real,
    ;
}

/// Fractions are multiplied numerator by numerator and denominator by denominator.
pub proof fn lemma_quotient_product(a: int, p: int, b: int, q: int)
    requires
        p != 0,
        q != 0,
    ensures
        p * q != 0,
        quotient(a * b, p * q) == quotient(a, p) * quotient(b, q),
{
    lemma_real_product(a, b);
    lemma_real_product(p, q);
    assert(p * q != 0) by (nonlinear_arith)
        requires
            p != 0,
            q != 0,
    ;
    let ar = a as real;
    let br = b as real;
    let pr = p as real;
    let qr = q as real;
    assert((ar * br) / (pr * qr) == (ar / pr) * (br / qr)) by (nonlinear_arith)
        requires
            pr != 0real,
            qr != 0real,
    ;
}

/// A fraction is divided by multiplying with the other turned over.
pub proof fn lemma_quotient_ratio(a: int, p: int, b: int, q: int)
    requires
        p != 0,
        q != 0,
        b != 0,
    ensures
        p * b != 0,
        quotient(a * q, p * b) == quotient(a, p) / quotient(b, q),
{
    lemma_real_product(a, q);
    lemma_real_product(p, b);
    assert(p * b != 0) by (nonlinear_arith)
        requires
            p != 0,
            b != 0,
    ;
    let ar = a as real;
    let br = b as real;
    let pr = p as real;
    let qr = q as real;
    assert((ar * qr) / (pr * br) == (ar / pr) / (br / qr)) by (nonlinear_arith)
        requires
            pr != 0real,
            qr != 0real,
            br != 0real,
    ;
}

/// Fractions with positive denominators are ordered as their cross products are.
pub proof fn lemma_quotient_order(a: int, p: int, b: int, q: int)
    requires
        p > 0,
        q > 0,
    ensures
        (quotient(a, p) < quotient(b, q)) == (a * q < b * p),
        (quotient(a, p) == quotient(b, q)) == (a * q == b * p),
{
    lemma_real_product(a, q);
    lemma_real_product(b, p);
    let ar = a as real;
    let br = b as real;
    let pr = p as real;
    let qr = q as real;
    assert((ar / pr < br / qr) == (ar * qr < br * pr)) by (nonlinear_arith)
        requires
            pr > 0real,
            qr > 0real,
    ;
    assert((ar / pr == br / qr) == (ar * qr == br * pr)) by (nonlinear_arith)
        requires
            pr > 0real,
            qr > 0real,
    ;
}

/// A fraction keeps its value where a common factor leaves the numerator and the
/// denominator.
pub proof fn lemma_quotient_cancel(a: int, p: int, g: int)
    requires
        p != 0,
        g != 0,
    ensures
        p * g != 0,
        quotient(a * g, p * g) == quotient(a, p),
{
    lemma_real_product(a, g);
    lemma_real_product(p, g);
    assert(p * g != 0) by (nonlinear_arith)
        requires
            p != 0,
            g != 0,
    ;
    let ar = a as real;
    let pr = p as real;
    let gr = g as real;
    assert((ar * gr) / (pr * gr) == ar / pr) by (nonlinear_arith)
        requires
            pr != 0real,
            gr != 0real,
    ;
}

/// An exact rational number of any size.
pub struct Rational {
    negative: bool,
    numerator: Natural,
    denominator: Natural,
}

impl Rational {
    /// The denominator is not zero.
    #[verifier::type_invariant]
    spec fn well_formed(self) -> bool {
        self.denominator.val() > 0
    }

    /// The numerator with its sign.
    pub closed spec fn top(&self) -> int {
        signed(self.negative, self.numerator.val())
    }

    /// The denominator.
    pub closed spec fn bottom(&self) -> int {
        self.denominator.val() as int
    }

    /// The fraction with the given sign, numerator and denominator, with a common divisor
    /// of the two taken out of both.
    fn reduced(negative: bool, numerator: Natural, denominator: Natural) -> (r: Self)
        requires
            denominator.val() > 0,
        ensures
            r.val() == quotient(signed(negative, numerator.val()), denominator.val() as int),
    {
        let g = numerator.common_divisor(&denominator);
        proof {
            let k = choose|k: nat| is_multiple(denominator.val(), g.val(), k);
            assert(g.val() != 0) by (nonlinear_arith)
                requires
                    denominator.val() == k * g.val(),
                    denominator.val() > 0,
            ;
        }
        let (top, top_rest) = numerator.divide(&g);
        let (bottom, bottom_rest) = denominator.divide(&g);
        proof {
            lemma_exact_division(numerator.val(), g.val(), top.val(), top_rest.val());
            lemma_exact_division(denominator.val(), g.val(), bottom.val(), bottom_rest.val());
            lemma_quotient_cancel(
                signed(negative, top.val()),
                bottom.val() as int,
                g.val() as int,
            );
            assert(signed(negative, top.val()) * g.val() == signed(negative, numerator.val()))
                by (nonlinear_arith)
                requires
                    numerator.val() == top.val() * g.val(),
            ;
        }
        Rational { negative, numerator: top, denominator: bottom }
    }

    /// Whether the number is written with a minus sign, and the numerator and the
    /// denominator it is written with.
    pub fn parts(&self) -> (r: (bool, Natural, Natural))
        ensures
            signed(r.0, r.1.val()) == self.top(),
            r.2.val() == self.bottom(),
            r.2.val() > 0,
            self.val() == quotient(self.top(), self.bottom()),
    {
        proof {
            use_type_invariant(self);
        }
        (self.negative, self.numerator.duplicate(), self.denominator.duplicate())
    }

    /// The integer `n`.
    pub fn from_integer(n: i64) -> (r: Self)
        ensures
            r.val() == n as real,
    {
        let magnitude: u64 = if n < 0 {
            (-(n + 1)) as u64 + 1
        } else {
            n as u64
        };
        let r = Rational {
            negative: n < 0,
            numerator: Natural::from_u64(magnitude),
            denominator: Natural::from_u64(1),
        };
        assert((n as real) / 1real == n as real) by (nonlinear_arith);
        r
    }

    /// The fraction `numerator / denominator`, or `None` where the denominator is zero.
    pub fn fraction(numerator: i64, denominator: u64) -> (r: Option<Self>)
        ensures
            r is Some == (denominator != 0),
            r matches Some(q) ==> q.val() == (numerator as real) / (denominator as real),
    {
        if denominator == 0 {
            return None;
        }
        let magnitude: u64 = if numerator < 0 {
            (-(numerator + 1)) as u64 + 1
        } else {
            numerator as u64
        };
        Some(
            Rational::reduced(
                numerator < 0,
                Natural::from_u64(magnitude),
                Natural::from_u64(denominator),
            ),
        )
    }
}

impl Scalar for Rational {
    /// The quotient of the numerator, with its sign, and the denominator.
    closed spec fn val(&self) -> real {
        quotient(self.top(), self.bottom())
    }

    fn zero() -> (r: Self) {
        Rational::from_integer(0)
    }

    fn one() -> (r: Self) {
        Rational::from_integer(1)
    }

    fn duplicate(&self) -> (r: Self) {
        proof {
            use_type_invariant(self);
        }
        Rational {
            negative: self.negative,
            numerator: self.numerator.duplicate(),
            denominator: self.denominator.duplicate(),
        }
    }

    fn plus(&self, other: &Self) -> (r: Self) {
        proof {
            use_type_invariant(self);
            use_type_invariant(other);
            lemma_quotient_sum(self.top(), self.bottom(), other.top(), other.bottom());
        }
        let x = self.numerator.times(&other.denominator);
        let y = other.numerator.times(&self.denominator);
        let denominator = self.denominator.times(&other.denominator);
        let ghost a = self.top();
        let ghost b = other.top();
        let ghost p = self.bottom();
        let ghost q = other.bottom();
        assert(signed(self.negative, x.val()) == a * q) by (nonlinear_arith)
            requires
                x.val() == self.numerator.val() * other.denominator.val(),
                a == signed(self.negative, self.numerator.val()),
                q == other.denominator.val(),
        ;
        assert(signed(other.negative, y.val()) == b * p) by (nonlinear_arith)
            requires
                y.val() == other.numerator.val() * self.denominator.val(),
                b == signed(other.negative, other.numerator.val()),
                p == self.denominator.val(),
        ;
        if self.negative == other.negative {
            Rational::reduced(self.negative, x.plus(&y), denominator)
        } else if x.order(&y) >= 0 {
            Rational::reduced(self.negative, x.minus(&y), denominator)
        } else {
            Rational::reduced(other.negative, y.minus(&x), denominator)
        }
    }

    fn minus(&self, other: &Self) -> (r: Self) {
        let opposite = other.negated();
        self.plus(&opposite)
    }

    fn times(&self, other: &Self) -> (r: Self) {
        proof {
            use_type_invariant(self);
            use_type_invariant(other);
            lemma_quotient_product(self.top(), self.bottom(), other.top(), other.bottom());
        }
        let numerator = self.numerator.times(&other.numerator);
        let denominator = self.denominator.times(&other.denominator);
        let negative = self.negative != other.negative;
        assert(signed(negative, numerator.val()) == self.top() * other.top())
            by (nonlinear_arith)
            requires
                numerator.val() == self.numerator.val() * other.numerator.val(),
                self.top() == signed(self.negative, self.numerator.val()),
                other.top() == signed(other.negative, other.numerator.val()),
                negative == (self.negative != other.negative),
        ;
        Rational::reduced(negative, numerator, denominator)
    }

    fn over(&self, other: &Self) -> (r: Self) {
        proof {
            use_type_invariant(self);
            use_type_invariant(other);
            if other.top() == 0 {
                assert((0 as real) / (other.bottom() as real) == 0real) by (nonlinear_arith)
                    requires
                        other.bottom() as real != 0real,
                ;
            }
            lemma_quotient_ratio(self.top(), self.bottom(), other.top(), other.bottom());
        }
        let numerator = self.numerator.times(&other.denominator);
        let denominator = self.denominator.times(&other.numerator);
        let negative = self.negative != other.negative;
        let ghost a = self.top();
        let ghost b = other.top();
        let ghost p = self.bottom();
        let ghost q = other.bottom();
        proof {
            let n = signed(negative, numerator.val());
            let d = denominator.val() as int;
            // The result holds the numerator and the denominator of `(a * q) / (p * b)`, both
            // with the sign of `b` taken out.
            if other.negative {
                assert(n == -(a * q) && d == -(p * b)) by (nonlinear_arith)
                    requires
                        n == signed(negative, numerator.val()),
                        numerator.val() == self.numerator.val() * other.denominator.val(),
                        d == self.denominator.val() * other.numerator.val(),
                        a == signed(self.negative, self.numerator.val()),
                        b == -(other.numerator.val() as int),
                        p == self.denominator.val(),
                        q == other.denominator.val(),
                        negative == !self.negative,
                ;
                lemma_real_product(-1, a * q);
                lemma_real_product(-1, p * b);
                let u = (a * q) as real;
                let v = (p * b) as real;
                assert(((-1 as real) * u) / ((-1 as real) * v) == u / v) by (nonlinear_arith)
                    requires
                        v != 0real,
                        (-1 as real) == -1real,
                ;
            } else {
                assert(n == a * q && d == p * b) by (nonlinear_arith)
                    requires
                        n == signed(negative, numerator.val()),
                        numerator.val() == self.numerator.val() * other.denominator.val(),
                        d == self.denominator.val() * other.numerator.val(),
                        a == signed(self.negative, self.numerator.val()),
                        b == other.numerator.val(),
                        p == self.denominator.val(),
                        q == other.denominator.val(),
                        negative == self.negative,
                ;
            }
        }
        Rational::reduced(negative, numerator, denominator)
    }

    fn negated(&self) -> (r: Self) {
        proof {
            use_type_invariant(self);
        }
        let r = Rational {
            negative: !self.negative,
            numerator: self.numerator.duplicate(),
            denominator: self.denominator.duplicate(),
        };
        proof {
            let a = self.top();
            let p = self.bottom();
            assert(((-a) as real) / (p as real) == -((a as real) / (p as real)))
                by (nonlinear_arith)
                requires
                    p as real != 0real,
                    (-a) as real == -(a as real),
            ;
        }
        r
    }

    fn less_than(&self, other: &Self) -> (r: bool) {
        proof {
            use_type_invariant(self);
            use_type_invariant(other);
            lemma_quotient_order(self.top(), self.bottom(), other.top(), other.bottom());
        }
        let x = self.numerator.times(&other.denominator);
        let y = other.numerator.times(&self.denominator);
        let ghost a = self.top();
        let ghost b = other.top();
        let ghost p = self.bottom();
        let ghost q = other.bottom();
        assert(signed(self.negative, x.val()) == a * q) by (nonlinear_arith)
            requires
                x.val() == self.numerator.val() * other.denominator.val(),
                a == signed(self.negative, self.numerator.val()),
                q == other.denominator.val(),
        ;
        assert(signed(other.negative, y.val()) == b * p) by (nonlinear_arith)
            requires
                y.val() == other.numerator.val() * self.denominator.val(),
                b == signed(other.negative, other.numerator.val()),
                p == self.denominator.val(),
        ;
        if self.negative {
            if other.negative {
                y.order(&x) < 0
            } else {
                !(x.is_zero() && y.is_zero())
            }
        } else if other.negative {
            false
        } else {
            x.order(&y) < 0
        }
    }

    fn equals(&self, other: &Self) -> (r: bool) {
        proof {
            use_type_invariant(self);
            use_type_invariant(other);
            lemma_quotient_order(self.top(), self.bottom(), other.top(), other.bottom());
        }
        let x = self.numerator.times(&other.denominator);
        let y = other.numerator.times(&self.denominator);
        let ghost a = self.top();
        let ghost b = other.top();
        let ghost p = self.bottom();
        let ghost q = other.bottom();
        assert(signed(self.negative, x.val()) == a * q) by (nonlinear_arith)
            requires
                x.val() == self.numerator.val() * other.denominator.val(),
                a == signed(self.negative, self.numerator.val()),
                q == other.denominator.val(),
        ;
        assert(signed(other.negative, y.val()) == b * p) by (nonlinear_arith)
            requires
                y.val() == other.numerator.val() * self.denominator.val(),
                b == signed(other.negative, other.numerator.val()),
                p == self.denominator.val(),
        ;
        if self.negative == other.negative {
            x.order(&y) == 0
        } else {
            x.is_zero() && y.is_zero()
        }
    }
}

} // verus!
