//! Exact arithmetic on fractions, the library's probability values.

use vstd::prelude::*;
use vstd::arithmetic::div_mod::{
    lemma_fundamental_div_mod, lemma_mod_multiples_basic, lemma_mod_self_0, lemma_small_mod,
};

verus! {

/// The greatest common divisor, by Euclid's recursion.
pub open spec fn spec_gcd(a: nat, b: nat) -> nat
    decreases b,
{
    if b == 0 {
        a
    } else {
        spec_gcd(b, a % b)
    }
}

/// The greatest common divisor is positive once one argument is, and divides
/// both arguments.
pub proof fn lemma_gcd_divides(a: nat, b: nat)
    requires
        a > 0 || b > 0,
    ensures
        spec_gcd(a, b) > 0,
        a % spec_gcd(a, b) == 0,
        b % spec_gcd(a, b) == 0,
    decreases b,
{
    let g = spec_gcd(a, b);
    if b == 0 {
        lemma_mod_self_0(a as int);
        assert(a % g == 0);
        assert(b % g == 0) by {
            lemma_small_mod(0, a);
        }
    } else {
        lemma_gcd_divides(b, a % b);
        assert(g == spec_gcd(b, a % b));
        assert(b % g == 0);
        assert((a % b) % g == 0);
        lemma_fundamental_div_mod(a as int, b as int);
        lemma_fundamental_div_mod(b as int, g as int);
        lemma_fundamental_div_mod((a % b) as int, g as int);
        let q = a as int / b as int;
        let bq = b as int / g as int;
        let rq = (a % b) as int / g as int;
        assert(a == (b as int) * q + (a % b));
        assert(b == g * bq);
        assert(a % b == g * rq);
        assert(a == g * (bq * q + rq)) by (nonlinear_arith)
            requires
                a == (b as int) * q + (a % b),
                b == g * bq,
                a % b == g * rq,
        ;
        lemma_mod_multiples_basic(bq * q + rq, g as int);
    }
}

/// A number is its divisor times the quotient when the remainder vanishes.
proof fn lemma_exact_division(m: nat, g: nat)
    requires
        g > 0,
        m % g == 0,
    ensures
        m == g * (m / g),
        m / g <= m,
{
    lemma_fundamental_div_mod(m as int, g as int);
    assert(m / g <= m) by (nonlinear_arith)
        requires
            g >= 1,
            m == g * (m / g),
            m / g >= 0,
    ;
}

/// The canonical representation of the fraction `n / d` for a positive
/// denominator: both components divided by their greatest common divisor, and
/// zero always written as `0 / 1`.
pub open spec fn spec_reduce(n: int, d: int) -> (int, int) {
    if n == 0 {
        (0, 1)
    } else {
        let g = spec_gcd(int_magnitude(n) as nat, d as nat) as int;
        (n / g, d / g)
    }
}

/// The absolute value of an integer.
pub open spec fn int_magnitude(n: int) -> int {
    if n >= 0 {
        n
    } else {
        -n
    }
}

/// Every common divisor of two numbers divides their greatest common
/// divisor.
proof fn lemma_common_divisor_divides_gcd(a: nat, b: nat, k: nat)
    requires
        k > 0,
        a % k == 0,
        b % k == 0,
    ensures
        spec_gcd(a, b) % k == 0,
    decreases b,
{
    if b == 0 {
    } else {
        lemma_fundamental_div_mod(a as int, b as int);
        lemma_fundamental_div_mod(a as int, k as int);
        lemma_fundamental_div_mod(b as int, k as int);
        let q = a as int / b as int;
        let qa = a as int / k as int;
        let qb = b as int / k as int;
        assert(a % b == k * (qa - qb * q)) by (nonlinear_arith)
            requires
                a == (b as int) * q + (a % b),
                a == k * qa,
                b == k * qb,
        ;
        lemma_mod_multiples_basic(qa - qb * q, k as int);
        assert((a % b) % k == 0);
        lemma_common_divisor_divides_gcd(b, a % b, k);
    }
}

/// A positive number is at least as large as any of its divisors' multiples
/// that divide it; in particular a divisor of a positive number never
/// exceeds it.
proof fn lemma_divisor_at_most(m: nat, k: nat)
    requires
        m > 0,
        k > 0,
        m % k == 0,
    ensures
        k <= m,
{
    lemma_fundamental_div_mod(m as int, k as int);
    assert(k <= m) by (nonlinear_arith)
        requires
            m == k * (m / k),
            m > 0,
            k > 0,
            m / k >= 0,
    ;
}

/// Dividing two numbers by their greatest common divisor leaves them
/// coprime.
proof fn lemma_quotients_coprime(m: nat, d: nat)
    requires
        m > 0,
        d > 0,
    ensures
        spec_gcd(m / spec_gcd(m, d), d / spec_gcd(m, d)) == 1,
{
    let g = spec_gcd(m, d);
    lemma_gcd_divides(m, d);
    lemma_exact_division(m, g);
    lemma_exact_division(d, g);
    let mq = m / g;
    let dq = d / g;
    assert(mq > 0) by (nonlinear_arith)
        requires
            m == g * mq,
            m > 0,
            mq >= 0,
    ;
    let g2 = spec_gcd(mq, dq);
    lemma_gcd_divides(mq, dq);
    lemma_exact_division(mq, g2);
    lemma_exact_division(dq, g2);
    let k = g * g2;
    assert(k > 0) by (nonlinear_arith)
        requires
            k == g * g2,
            g > 0,
            g2 > 0,
    ;
    assert(m == k * (mq / g2)) by (nonlinear_arith)
        requires
            m == g * mq,
            mq == g2 * (mq / g2),
            k == g * g2,
    ;
    assert(d == k * (dq / g2)) by (nonlinear_arith)
        requires
            d == g * dq,
            dq == g2 * (dq / g2),
            k == g * g2,
    ;
    lemma_mod_multiples_basic((mq / g2) as int, k as int);
    lemma_mod_multiples_basic((dq / g2) as int, k as int);
    lemma_common_divisor_divides_gcd(m, d, k);
    lemma_divisor_at_most(g, k);
    assert(g2 == 1) by (nonlinear_arith)
        requires
            k == g * g2,
            k <= g,
            g > 0,
            g2 > 0,
    ;
}

/// The canonical form is in lowest terms: numerator and denominator of a
/// reduced fraction have no common divisor above one.
pub proof fn lemma_reduce_lowest_terms(n: int, d: int)
    requires
        d >= 1,
    ensures
        spec_gcd(
            int_magnitude(spec_reduce(n, d).0) as nat,
            spec_reduce(n, d).1 as nat,
        ) == 1,
{
    if n == 0 {
        assert(spec_gcd(0, 1) == spec_gcd(1, 0)) by {
            assert(0nat % 1nat == 0) by {
                lemma_small_mod(0, 1);
            }
        }
    } else {
        let m = int_magnitude(n) as nat;
        let g = spec_gcd(m, d as nat);
        lemma_gcd_divides(m, d as nat);
        lemma_exact_division(m, g);
        lemma_exact_division(d as nat, g);
        assert(n / (g as int) == (if n >= 0 {
            (m / g) as int
        } else {
            -((m / g) as int)
        })) by {
            if n >= 0 {
            } else {
                vstd::arithmetic::div_mod::lemma_div_multiples_vanish(
                    -((m / g) as int),
                    g as int,
                );
                assert((g as int) * (-((m / g) as int)) == n) by (nonlinear_arith)
                    requires
                        m == g * (m / g),
                        n == -(m as int),
                ;
            }
        }
        assert(int_magnitude(spec_reduce(n, d).0) == (m / g) as int);
        lemma_quotients_coprime(m, d as nat);
    }
}

/// A share of a total stays in the unit interval: reducing `n / d` with
/// `0 <= n <= d` leaves the numerator between zero and the denominator.
pub proof fn lemma_reduce_within_unit(n: int, d: int)
    requires
        0 <= n <= d,
        1 <= d,
    ensures
        0 <= spec_reduce(n, d).0 <= spec_reduce(n, d).1,
{
    if n == 0 {
    } else {
        let g = spec_gcd(n as nat, d as nat) as int;
        lemma_gcd_divides(n as nat, d as nat);
        vstd::arithmetic::div_mod::lemma_div_pos_is_pos(n, g);
        vstd::arithmetic::div_mod::lemma_div_is_ordered(n, d, g);
    }
}

/// `Fraction::new(n, d)` represents the rational number `n / d`, kept in
/// lowest terms with a positive denominator.
#[derive(PartialEq, Eq, Structural, Hash, Copy, Clone, Debug)]
pub struct Fraction(i64, u64);

impl Fraction {
    /// The numerator; it carries the sign of the fraction.
    pub closed spec fn num(self) -> int {
        self.0 as int
    }

    /// The denominator; always positive.
    pub closed spec fn den(self) -> int {
        self.1 as int
    }

    /// The invariant every fraction maintains: the denominator is positive
    /// and the numerator leaves room for negation.
    #[verifier::type_invariant]
    pub open spec fn wf(self) -> bool {
        self.den() >= 1 && self.num() > i64::MIN
    }

    /// Creates the fraction `numerator / denominator` in canonical form.
    ///
    /// The denominator must not be zero; the numerator must be negatable.
    pub fn new(numerator: i64, denominator: u64) -> (r: Self)
        requires
            denominator != 0,
            numerator > i64::MIN,
        ensures
            (r.num(), r.den()) == spec_reduce(numerator as int, denominator as int),
            r.den() >= 1,
            r.num() * denominator == numerator * r.den(),
            spec_gcd(int_magnitude(r.num()) as nat, r.den() as nat) == 1,
    {
        proof {
            lemma_reduce_lowest_terms(numerator as int, denominator as int);
        }
        if numerator == 0 {
            return Fraction(0, 1);
        }
        let m: u64 = if numerator < 0 {
            (-numerator) as u64
        } else {
            numerator as u64
        };
        let ghost gm = m as nat;
        let ghost gd = denominator as nat;
        let g = gcd(m, denominator);
        proof {
            lemma_gcd_divides(gm, gd);
            lemma_exact_division(gm, g as nat);
            lemma_exact_division(gd, g as nat);
        }
        let q = m / g;
        let den = denominator / g;
        let num = if numerator < 0 {
            -(q as i64)
        } else {
            q as i64
        };
        proof {
            let gi = g as int;
            assert(m == gi * (q as int));
            assert(denominator == gi * (den as int));
            assert(num as int * gi == numerator as int) by (nonlinear_arith)
                requires
                    m == gi * (q as int),
                    (numerator < 0 ==> num == -(q as int) && m == -(numerator as int)),
                    (numerator >= 0 ==> num == q as int && m == numerator as int),
            ;
            assert((numerator as int) / gi == num as int) by {
                vstd::arithmetic::div_mod::lemma_div_multiples_vanish(num as int, gi);
                assert(gi * (num as int) == numerator as int) by (nonlinear_arith)
                    requires
                        num as int * gi == numerator as int,
                ;
            }
            assert((denominator as int) / gi == den as int) by {
                vstd::arithmetic::div_mod::lemma_div_multiples_vanish(den as int, gi);
                assert(gi * (den as int) == denominator as int) by (nonlinear_arith)
                    requires
                        denominator == gi * (den as int),
                ;
            }
            assert(num as int * (denominator as int) == numerator as int * (den as int))
                by (nonlinear_arith)
                requires
                    m == gi * (q as int),
                    denominator == gi * (den as int),
                    num as int * gi == numerator as int,
            ;
            assert(den >= 1) by (nonlinear_arith)
                requires
                    denominator >= 1,
                    gi >= 1,
                    denominator == gi * (den as int),
            ;
        }
        Fraction(num, den)
    }

    /// Returns `0 / 1`.
    pub fn zero() -> (r: Self)
        ensures
            r.num() == 0,
            r.den() == 1,
    {
        Fraction(0, 1)
    }

    /// Returns `1 / 1`.
    pub fn one() -> (r: Self)
        ensures
            r.num() == 1,
            r.den() == 1,
    {
        Fraction(1, 1)
    }

    /// The whole number `n`, as a fraction.
    pub fn from_int(n: i64) -> (r: Self)
        requires
            n > i64::MIN,
        ensures
            r.num() == n,
            r.den() == 1,
    {
        let r = Fraction::new(n, 1);
        proof {
            if n != 0 {
                let g = spec_gcd(int_magnitude(n as int) as nat, 1);
                lemma_gcd_divides(int_magnitude(n as int) as nat, 1);
                assert(1nat % g == 0);
                assert(g == 1) by {
                    lemma_fundamental_div_mod(1int, g as int);
                    assert(1int == g * (1int / g as int));
                    assert(g <= 1) by (nonlinear_arith)
                        requires
                            1int == g * (1int / g as int),
                            g > 0,
                            1int / g as int >= 0,
                    ;
                }
                assert((n as int) / 1 == n as int) by {
                    vstd::arithmetic::div_mod::lemma_div_multiples_vanish(n as int, 1);
                }
                assert((1 as int) / 1 == 1 as int);
            }
        }
        r
    }

    /// The reciprocal; only a fraction other than zero has one.
    pub fn inverse(&self) -> (r: Self)
        requires
            self.num() != 0,
            self.den() <= i64::MAX,
        ensures
            (r.num(), r.den()) == spec_reduce(
                if self.num() < 0 {
                    -self.den()
                } else {
                    self.den()
                },
                int_magnitude(self.num()),
            ),
            r.den() >= 1,
            r.num() * self.num() == self.den() * r.den(),
    {
        proof {
            use_type_invariant(self);
        }
        let flipped: i64 = if self.0 < 0 {
            -(self.1 as i64)
        } else {
            self.1 as i64
        };
        let magnitude: u64 = if self.0 < 0 {
            (-self.0) as u64
        } else {
            self.0 as u64
        };
        let r = Fraction::new(flipped, magnitude);
        proof {
            assert(r.num() * self.num() == self.den() * r.den()) by (nonlinear_arith)
                requires
                    r.num() * (magnitude as int) == (flipped as int) * r.den(),
                    (self.num() < 0 ==> magnitude == -self.num()),
                    (self.num() >= 0 ==> magnitude == self.num()),
                    (self.num() < 0 ==> flipped == -self.den()),
                    (self.num() >= 0 ==> flipped == self.den()),
                    self.num() != 0,
            ;
        }
        r
    }

    /// Adds two fractions by cross multiplication; the result is reduced.
    pub fn add(self, other: Self) -> (r: Self)
        requires
            i64::MIN < self.num() * other.den() + other.num() * self.den() <= i64::MAX,
            self.den() * other.den() <= u64::MAX,
        ensures
            (r.num(), r.den()) == spec_reduce(
                self.num() * other.den() + other.num() * self.den(),
                self.den() * other.den(),
            ),
            r.den() >= 1,
            r.num() * (self.den() * other.den()) == (self.num() * other.den() + other.num()
                * self.den()) * r.den(),
    {
        proof {
            use_type_invariant(&self);
            use_type_invariant(&other);
            lemma_i64_u64_product_bounds(self.0 as int, other.1 as int);
            lemma_i64_u64_product_bounds(other.0 as int, self.1 as int);
            lemma_den_product_positive(self.den(), other.den());
        }
        let wide_num = (self.0 as i128) * (other.1 as i128) + (other.0 as i128) * (self.1 as i128);
        let wide_den = (self.1 as u128) * (other.1 as u128);
        Fraction::new(wide_num as i64, wide_den as u64)
    }

    /// The fraction with the opposite sign.
    pub fn neg(self) -> (r: Self)
        ensures
            r.num() == -self.num(),
            r.den() == self.den(),
    {
        proof {
            use_type_invariant(&self);
        }
        Fraction(-self.0, self.1)
    }

    /// Subtracts a fraction by cross multiplication; the result is reduced.
    pub fn sub(self, other: Self) -> (r: Self)
        requires
            i64::MIN < self.num() * other.den() - other.num() * self.den() <= i64::MAX,
            self.den() * other.den() <= u64::MAX,
        ensures
            (r.num(), r.den()) == spec_reduce(
                self.num() * other.den() - other.num() * self.den(),
                self.den() * other.den(),
            ),
            r.den() >= 1,
            r.num() * (self.den() * other.den()) == (self.num() * other.den() - other.num()
                * self.den()) * r.den(),
    {
        proof {
            use_type_invariant(&self);
            use_type_invariant(&other);
            lemma_i64_u64_product_bounds(self.0 as int, other.1 as int);
            lemma_i64_u64_product_bounds(other.0 as int, self.1 as int);
            lemma_den_product_positive(self.den(), other.den());
        }
        let wide_num = (self.0 as i128) * (other.1 as i128) - (other.0 as i128) * (self.1 as i128);
        let wide_den = (self.1 as u128) * (other.1 as u128);
        Fraction::new(wide_num as i64, wide_den as u64)
    }

    /// Multiplies two fractions; the result is reduced.
    pub fn mul(self, other: Self) -> (r: Self)
        requires
            i64::MIN < self.num() * other.num() <= i64::MAX,
            self.den() * other.den() <= u64::MAX,
        ensures
            (r.num(), r.den()) == spec_reduce(
                self.num() * other.num(),
                self.den() * other.den(),
            ),
            r.den() >= 1,
            r.num() * (self.den() * other.den()) == (self.num() * other.num()) * r.den(),
    {
        proof {
            use_type_invariant(&self);
            use_type_invariant(&other);
            lemma_i64_i64_product_bounds(self.0 as int, other.0 as int);
            lemma_den_product_positive(self.den(), other.den());
        }
        let wide_num = (self.0 as i128) * (other.0 as i128);
        let wide_den = (self.1 as u128) * (other.1 as u128);
        Fraction::new(wide_num as i64, wide_den as u64)
    }

    /// Divides by a fraction. Division by zero has no result; any other
    /// division has exactly one, and it is reduced.
    pub fn div(self, other: Self) -> (r: Option<Self>)
        requires
            other.num() != 0 ==> i64::MIN < self.num() * other.den() <= i64::MAX,
            other.num() != 0 ==> self.den() * int_magnitude(other.num()) <= u64::MAX,
        ensures
            r is None <==> other.num() == 0,
            r matches Some(f) ==> {
                let top = if other.num() < 0 {
                    -(self.num() * other.den())
                } else {
                    self.num() * other.den()
                };
                &&& (f.num(), f.den()) == spec_reduce(top, self.den() * int_magnitude(other.num()))
                &&& f.den() >= 1
                &&& f.num() * (self.den() * int_magnitude(other.num())) == top * f.den()
            },
    {
        proof {
            use_type_invariant(&self);
            use_type_invariant(&other);
        }
        if other.0 == 0 {
            return None;
        }
        proof {
            lemma_i64_u64_product_bounds(self.0 as int, other.1 as int);
            lemma_den_product_positive(self.den(), int_magnitude(other.num()));
        }
        let cross = (self.0 as i128) * (other.1 as i128);
        let wide_num = if other.0 < 0 {
            -cross
        } else {
            cross
        };
        let magnitude: u64 = if other.0 < 0 {
            (-other.0) as u64
        } else {
            other.0 as u64
        };
        let wide_den = (self.1 as u128) * (magnitude as u128);
        Some(Fraction::new(wide_num as i64, wide_den as u64))
    }
}

proof fn lemma_den_product_positive(a: int, b: int)
    requires
        a >= 1,
        b >= 1,
    ensures
        a * b >= 1,
{
    assert(a * b >= 1) by (nonlinear_arith)
        requires
            a >= 1,
            b >= 1,
    ;
}

proof fn lemma_i64_u64_product_bounds(a: int, b: int)
    requires
        i64::MIN <= a <= i64::MAX,
        0 <= b <= u64::MAX,
    ensures
        i128::MIN < a * b < i128::MAX,
{
    assert(i128::MIN < a * b < i128::MAX) by (nonlinear_arith)
        requires
            i64::MIN <= a <= i64::MAX,
            0 <= b <= u64::MAX,
    ;
}

proof fn lemma_i64_i64_product_bounds(a: int, b: int)
    requires
        i64::MIN <= a <= i64::MAX,
        i64::MIN <= b <= i64::MAX,
    ensures
        i128::MIN < a * b < i128::MAX,
{
    assert(i128::MIN < a * b < i128::MAX) by (nonlinear_arith)
        requires
            i64::MIN <= a <= i64::MAX,
            i64::MIN <= b <= i64::MAX,
    ;
}

/// Computes the greatest common divisor by Euclid's algorithm.
pub fn gcd(a: u64, b: u64) -> (g: u64)
    ensures
        g == spec_gcd(a as nat, b as nat),
{
    let mut x = a;
    let mut y = b;
    while y > 0
        invariant
            spec_gcd(x as nat, y as nat) == spec_gcd(a as nat, b as nat),
        decreases y,
    {
        let remainder = x % y;
        x = y;
        y = remainder;
    }
    x
}

impl PartialOrd for Fraction {
    /// Fractions are ordered by cross multiplication, without ever leaving
    /// the integers.
    fn partial_cmp(&self, other: &Self) -> (r: Option<core::cmp::Ordering>) {
        proof {
            use_type_invariant(self);
            use_type_invariant(other);
        }
        proof {
            lemma_i64_u64_product_bounds(self.0 as int, other.1 as int);
            lemma_i64_u64_product_bounds(other.0 as int, self.1 as int);
        }
        let a = (self.0 as i128) * (other.1 as i128);
        let b = (other.0 as i128) * (self.1 as i128);
        if a < b {
            Some(core::cmp::Ordering::Less)
        } else if a == b {
            Some(core::cmp::Ordering::Equal)
        } else {
            Some(core::cmp::Ordering::Greater)
        }
    }
}

impl vstd::std_specs::cmp::PartialOrdSpecImpl for Fraction {
    open spec fn obeys_partial_cmp_spec() -> bool {
        true
    }

    open spec fn partial_cmp_spec(&self, other: &Self) -> Option<core::cmp::Ordering> {
        if self.num() * other.den() < other.num() * self.den() {
            Some(core::cmp::Ordering::Less)
        } else if self.num() * other.den() == other.num() * self.den() {
            Some(core::cmp::Ordering::Equal)
        } else {
            Some(core::cmp::Ordering::Greater)
        }
    }
}

/// The character for one decimal digit.
pub open spec fn digit_char(d: nat) -> char {
    if d == 0 {
        '0'
    } else if d == 1 {
        '1'
    } else if d == 2 {
        '2'
    } else if d == 3 {
        '3'
    } else if d == 4 {
        '4'
    } else if d == 5 {
        '5'
    } else if d == 6 {
        '6'
    } else if d == 7 {
        '7'
    } else if d == 8 {
        '8'
    } else {
        '9'
    }
}

/// The decimal digits of a number, most significant first.
pub open spec fn dec_digits(n: nat) -> Seq<char>
    decreases n,
{
    if n < 10 {
        seq![digit_char(n)]
    } else {
        dec_digits(n / 10).push(digit_char(n % 10))
    }
}

/// The decimal rendering of an integer, a minus sign in front of a negative
/// one.
pub open spec fn dec_int(n: int) -> Seq<char> {
    if n < 0 {
        seq!['-'] + dec_digits((-n) as nat)
    } else {
        dec_digits(n as nat)
    }
}

/// The text of a fraction: the numerator alone for a whole number, else
/// numerator and denominator around a slash.
pub open spec fn fraction_text(f: Fraction) -> Seq<char> {
    if f.den() == 1 {
        dec_int(f.num())
    } else {
        dec_int(f.num()) + seq!['/'] + dec_digits(f.den() as nat)
    }
}

/// The digits of a stack of remainders, read from the top down.
spec fn stacked_digits(digits: Seq<u64>) -> Seq<char>
    decreases digits.len(),
{
    if digits.len() == 0 {
        Seq::empty()
    } else {
        seq![digit_char(digits.last() as nat)] + stacked_digits(digits.drop_last())
    }
}

fn push_digit(out: &mut String, d: u64)
    requires
        d < 10,
    ensures
        final(out)@ == old(out)@.push(digit_char(d as nat)),
{
    let piece = match d {
        0 => "0",
        1 => "1",
        2 => "2",
        3 => "3",
        4 => "4",
        5 => "5",
        6 => "6",
        7 => "7",
        8 => "8",
        _ => "9",
    };
    proof {
        reveal_strlit("0");
        reveal_strlit("1");
        reveal_strlit("2");
        reveal_strlit("3");
        reveal_strlit("4");
        reveal_strlit("5");
        reveal_strlit("6");
        reveal_strlit("7");
        reveal_strlit("8");
        reveal_strlit("9");
        assert(piece@ =~= seq![digit_char(d as nat)]);
    }
    out.append(piece);
    proof {
        assert(out@ =~= old(out)@.push(digit_char(d as nat)));
    }
}

/// Writes a number in decimal.
fn u64_to_string(x: u64) -> (s: String)
    ensures
        s@ == dec_digits(x as nat),
{
    let mut out = String::new();
    let mut v: u64 = x;
    let mut stack: Vec<u64> = Vec::new();
    while v >= 10
        invariant
            dec_digits(x as nat) == dec_digits(v as nat) + stacked_digits(stack@),
            forall|k: int| 0 <= k < stack@.len() ==> stack@[k] < 10,
        decreases v,
    {
        let ghost digits0 = stack@;
        stack.push(v % 10);
        v = v / 10;
        proof {
            assert(stack@.drop_last() =~= digits0);
            assert(dec_digits(x as nat) =~= dec_digits(v as nat) + stacked_digits(stack@));
        }
    }
    push_digit(&mut out, v);
    proof {
        assert(out@ =~= dec_digits(v as nat));
        assert(stack@.subrange(0, stack@.len() as int) =~= stack@);
    }
    let mut i: usize = stack.len();
    while i > 0
        invariant
            i <= stack@.len(),
            forall|k: int| 0 <= k < stack@.len() ==> stack@[k] < 10,
            dec_digits(x as nat) == out@ + stacked_digits(stack@.subrange(0, i as int)),
        decreases i,
    {
        let ghost remaining = stack@.subrange(0, i as int);
        i -= 1;
        push_digit(&mut out, stack[i]);
        proof {
            assert(remaining.drop_last() =~= stack@.subrange(0, i as int));
            assert(remaining.last() == stack@[i as int]);
            assert(out@ + stacked_digits(stack@.subrange(0, i as int)) =~= dec_digits(x as nat));
        }
    }
    proof {
        assert(stack@.subrange(0, 0) =~= Seq::<u64>::empty());
        assert(out@ =~= dec_digits(x as nat));
    }
    out
}

/// Writes a signed number in decimal.
fn i64_to_string(x: i64) -> (s: String)
    requires
        x > i64::MIN,
    ensures
        s@ == dec_int(x as int),
{
    if x < 0 {
        let mut out = String::from_str("-");
        proof {
            reveal_strlit("-");
            assert(out@ =~= seq!['-']);
        }
        let digits = u64_to_string((-x) as u64);
        out.append(digits.as_str());
        proof {
            assert(out@ =~= dec_int(x as int));
        }
        out
    } else {
        u64_to_string(x as u64)
    }
}

impl Fraction {
    /// The fraction written out: the numerator alone for a whole number, else
    /// numerator and denominator around a slash.
    pub fn to_text(&self) -> (s: String)
        ensures
            s@ == fraction_text(*self),
    {
        proof {
            use_type_invariant(self);
        }
        if self.1 != 1 {
            let mut out = i64_to_string(self.0);
            let slash = "/";
            proof {
                reveal_strlit("/");
                assert(slash@ =~= seq!['/']);
            }
            out.append(slash);
            let den = u64_to_string(self.1);
            out.append(den.as_str());
            proof {
                assert(out@ =~= fraction_text(*self));
            }
            out
        } else {
            i64_to_string(self.0)
        }
    }
}

impl Default for Fraction {
    /// The default fraction is zero.
    fn default() -> (r: Self)
        ensures
            r.num() == 0,
            r.den() == 1,
    {
        Fraction::zero()
    }
}

} // verus!
