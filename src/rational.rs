//! Fractions of 64-bit integers, kept with a positive denominator and in
//! lowest terms.
use vstd::prelude::*;

use crate::classics::spec_gcd;

verus! {

/// Euclid's remainders are positive while both arguments are.
pub proof fn lemma_gcd_positive(a: nat, b: nat)
    requires
        a > 0,
    ensures
        spec_gcd(a, b) > 0,
    decreases b,
{
    if b > 0 {
        lemma_gcd_positive(b, a % b);
    }
}

/// The greatest common divisor is no greater than a positive second argument.
pub proof fn lemma_gcd_at_most(a: nat, b: nat)
    requires
        b > 0,
    ensures
        spec_gcd(a, b) <= b,
    decreases b,
{
    assert(spec_gcd(a, b) == spec_gcd(b, a % b));
    if a % b > 0 {
        lemma_gcd_at_most(b, a % b);
        assert(a % b < b);
    } else {
        assert(spec_gcd(b, 0) == b);
    }
}

/// Greatest common divisor of two positive integers, by Euclid's algorithm.
pub fn generic_gcd(a: &i64, b: &i64) -> (r: i64)
    requires
        *a > 0,
        *b > 0,
    ensures
        r as int == spec_gcd(*a as nat, *b as nat),
{
    let mut x = *a;
    let mut y = *b;
    if x < y {
        proof {
            vstd::arithmetic::div_mod::lemma_small_mod(x as nat, y as nat);
            assert(spec_gcd(x as nat, y as nat) == spec_gcd(y as nat, x as nat));
        }
        let t = x;
        x = y;
        y = t;
    }
    loop
        invariant
            x > 0,
            y > 0,
            spec_gcd(x as nat, y as nat) == spec_gcd(*a as nat, *b as nat),
        decreases y,
    {
        let m = x % y;
        proof {
            assert(spec_gcd(x as nat, y as nat) == spec_gcd(y as nat, m as nat));
        }
        if m == 0 {
            proof {
                assert(spec_gcd(y as nat, 0) == y);
            }
            return y;
        }
        x = y;
        y = m;
    }
}

/// The numerator and denominator of `n / d` with a positive denominator and
/// in lowest terms; zero keeps the denominator.
pub open spec fn normalized(n: int, d: int) -> (int, int) {
    let n1 = if d < 0 { -n } else { n };
    let d1 = if d < 0 { -d } else { d };
    let a = if n1 < 0 { -n1 } else { n1 };
    if n1 == 0 {
        (0, d1)
    } else {
        let g = spec_gcd(a as nat, d1 as nat) as int;
        (if n1 < 0 { -(a / g) } else { a / g }, d1 / g)
    }
}

/// For positive `n` and `d` whose greatest common divisor `g` divides them
/// into `p` and `q`, the lowest terms of `n / d` are `p / q`.
pub proof fn lemma_normalized_positive(n: int, d: int, g: int, p: int, q: int)
    requires
        n > 0,
        d > 0,
        g == spec_gcd(n as nat, d as nat),
        n == g * p,
        d == g * q,
    ensures
        normalized(n, d) == (p, q),
{
    lemma_gcd_positive(n as nat, d as nat);
    vstd::arithmetic::div_mod::lemma_div_multiples_vanish(p, g);
    vstd::arithmetic::div_mod::lemma_div_multiples_vanish(q, g);
}

/// A fraction.
#[derive(Debug, Clone, Copy)]
pub struct Rational {
    numerator: i64,
    denominator: i64,
}

impl Rational {
    /// The numerator.
    pub closed spec fn num(&self) -> int {
        self.numerator as int
    }

    /// The denominator.
    pub closed spec fn den(&self) -> int {
        self.denominator as int
    }

    /// The fraction with this numerator and denominator, as stored.
    pub closed spec fn from_parts(n: int, d: int) -> Rational {
        Rational { numerator: n as i64, denominator: d as i64 }
    }

    /// The fraction built from a numerator and a denominator in range keeps
    /// them.
    pub proof fn lemma_from_parts(n: int, d: int)
        requires
            i64::MIN <= n <= i64::MAX,
            i64::MIN <= d <= i64::MAX,
        ensures
            Rational::from_parts(n, d).num() == n,
            Rational::from_parts(n, d).den() == d,
    {
    }

    #[verifier::type_invariant]
    spec fn positive_denominator(&self) -> bool {
        self.denominator > 0
    }

    /// The numerator, which carries the sign.
    pub fn numerator(&self) -> (r: i64)
        ensures
            r == self.num(),
    {
        self.numerator
    }

    /// The denominator, which is positive.
    pub fn denominator(&self) -> (r: i64)
        ensures
            r == self.den(),
            r > 0,
    {
        proof {
            use_type_invariant(self);
        }
        self.denominator
    }

    /// The fraction `numerator / denominator`, with the sign carried by the
    /// numerator and in lowest terms.
    pub fn new(numerator: i64, denominator: i64) -> (r: Rational)
        requires
            denominator != 0,
            numerator > i64::MIN,
            denominator > i64::MIN,
        ensures
            r.num() == normalized(numerator as int, denominator as int).0,
            r.den() == normalized(numerator as int, denominator as int).1,
            r.den() > 0,
    {
        let mut ret_num = numerator;
        let mut ret_den = denominator;
        if ret_den < 0 {
            ret_den = -ret_den;
            ret_num = -ret_num;
        }
        let abs_num = if ret_num < 0 { -ret_num } else { ret_num };
        if ret_num != 0 {
            let g = generic_gcd(&abs_num, &ret_den);
            proof {
                lemma_gcd_positive(abs_num as nat, ret_den as nat);
                lemma_gcd_at_most(abs_num as nat, ret_den as nat);
            }
            proof {
                assert(ret_den / g >= 1) by (nonlinear_arith)
                    requires
                        0 < g <= ret_den,
                ;
            }
            let q = abs_num / g;
            ret_num = if ret_num < 0 { -q } else { q };
            ret_den = ret_den / g;
        }
        Rational { numerator: ret_num, denominator: ret_den }
    }
}


/// The product of two 64-bit integers, which always fits in 128 bits.
fn wide_product(a: i64, b: i64) -> (r: i128)
    ensures
        r == a * b,
{
    proof {
        assert(-0x4000_0000_0000_0000_0000_0000_0000_0000 <= a * b <= 0x4000_0000_0000_0000_0000_0000_0000_0000)
            by (nonlinear_arith)
            requires
                i64::MIN <= a <= i64::MAX,
                i64::MIN <= b <= i64::MAX,
        ;
    }
    (a as i128) * (b as i128)
}

/// `a / b` and `c / d` are the same number.
pub open spec fn same_value(a: int, b: int, c: int, d: int) -> bool {
    a * d == c * b
}

impl PartialEq for Rational {
    /// Two fractions are equal when they stand for the same number.
    fn eq(&self, other: &Rational) -> (r: bool) {
        wide_product(self.numerator, other.denominator) == wide_product(other.numerator, self.denominator)
    }
}

impl vstd::std_specs::cmp::PartialEqSpecImpl for Rational {
    open spec fn obeys_eq_spec() -> bool {
        true
    }

    open spec fn eq_spec(&self, other: &Rational) -> bool {
        same_value(self.num(), self.den(), other.num(), other.den())
    }
}

impl<'a> core::ops::Add for &'a Rational {
    type Output = Rational;

    /// The sum, in lowest terms.
    fn add(self, other: &'a Rational) -> (r: Rational) {
        proof {
            use_type_invariant(self);
            use_type_invariant(other);
        }
        let n = self.numerator * other.denominator + self.denominator * other.numerator;
        let d = self.denominator * other.denominator;
        proof {
            assert(d > 0) by (nonlinear_arith)
                requires
                    d == self.denominator * other.denominator,
                    self.denominator > 0,
                    other.denominator > 0,
            ;
        }
        Rational::new(n, d)
    }
}

impl<'a> vstd::std_specs::ops::AddSpecImpl for &'a Rational {
    open spec fn obeys_add_spec() -> bool {
        true
    }

    open spec fn add_req(self, other: &'a Rational) -> bool {
        let n = self.num() * other.den() + self.den() * other.num();
        &&& i64::MIN <= self.num() * other.den() <= i64::MAX
        &&& i64::MIN <= self.den() * other.num() <= i64::MAX
        &&& i64::MIN < n <= i64::MAX
        &&& self.den() * other.den() <= i64::MAX
    }

    open spec fn add_spec(self, other: &'a Rational) -> Rational {
        let n = self.num() * other.den() + self.den() * other.num();
        let d = self.den() * other.den();
        Rational::from_parts(normalized(n, d).0, normalized(n, d).1)
    }
}


impl<'a> core::ops::Sub for &'a Rational {
    type Output = Rational;

    /// The difference, in lowest terms.
    fn sub(self, other: &'a Rational) -> (r: Rational) {
        proof {
            use_type_invariant(self);
            use_type_invariant(other);
        }
        let n = self.numerator * other.denominator - self.denominator * other.numerator;
        let d = self.denominator * other.denominator;
        proof {
            assert(d > 0) by (nonlinear_arith)
                requires
                    d == self.denominator * other.denominator,
                    self.denominator > 0,
                    other.denominator > 0,
            ;
        }
        Rational::new(n, d)
    }
}

impl<'a> vstd::std_specs::ops::SubSpecImpl for &'a Rational {
    open spec fn obeys_sub_spec() -> bool {
        true
    }

    open spec fn sub_req(self, other: &'a Rational) -> bool {
        let n = self.num() * other.den() - self.den() * other.num();
        &&& i64::MIN <= self.num() * other.den() <= i64::MAX
        &&& i64::MIN <= self.den() * other.num() <= i64::MAX
        &&& i64::MIN < n <= i64::MAX
        &&& self.den() * other.den() <= i64::MAX
    }

    open spec fn sub_spec(self, other: &'a Rational) -> Rational {
        let n = self.num() * other.den() - self.den() * other.num();
        let d = self.den() * other.den();
        Rational::from_parts(normalized(n, d).0, normalized(n, d).1)
    }
}

impl<'a> core::ops::Mul for &'a Rational {
    type Output = Rational;

    /// The product, in lowest terms.
    fn mul(self, other: &'a Rational) -> (r: Rational) {
        proof {
            use_type_invariant(self);
            use_type_invariant(other);
        }
        let n = self.numerator * other.numerator;
        let d = self.denominator * other.denominator;
        proof {
            assert(d > 0) by (nonlinear_arith)
                requires
                    d == self.denominator * other.denominator,
                    self.denominator > 0,
                    other.denominator > 0,
            ;
        }
        Rational::new(n, d)
    }
}

impl<'a> vstd::std_specs::ops::MulSpecImpl for &'a Rational {
    open spec fn obeys_mul_spec() -> bool {
        true
    }

    open spec fn mul_req(self, other: &'a Rational) -> bool {
        &&& i64::MIN < self.num() * other.num() <= i64::MAX
        &&& self.den() * other.den() <= i64::MAX
    }

    open spec fn mul_spec(self, other: &'a Rational) -> Rational {
        let n = self.num() * other.num();
        let d = self.den() * other.den();
        Rational::from_parts(normalized(n, d).0, normalized(n, d).1)
    }
}

impl<'a> core::ops::Div for &'a Rational {
    type Output = Rational;

    /// The quotient, in lowest terms.
    fn div(self, other: &'a Rational) -> (r: Rational) {
        proof {
            use_type_invariant(self);
            use_type_invariant(other);
        }
        let n = self.numerator * other.denominator;
        let d = self.denominator * other.numerator;
        proof {
            assert(d != 0) by (nonlinear_arith)
                requires
                    d == self.denominator * other.numerator,
                    self.denominator > 0,
                    other.numerator != 0,
            ;
        }
        Rational::new(n, d)
    }
}

impl<'a> vstd::std_specs::ops::DivSpecImpl for &'a Rational {
    open spec fn obeys_div_spec() -> bool {
        true
    }

    open spec fn div_req(self, other: &'a Rational) -> bool {
        &&& other.num() != 0
        &&& i64::MIN < self.num() * other.den() <= i64::MAX
        &&& i64::MIN < self.den() * other.num() <= i64::MAX
    }

    open spec fn div_spec(self, other: &'a Rational) -> Rational {
        let n = self.num() * other.den();
        let d = self.den() * other.num();
        Rational::from_parts(normalized(n, d).0, normalized(n, d).1)
    }
}


/// How `a / b` compares with `c / d`, for positive `b` and `d`.
pub open spec fn compare_values(a: int, b: int, c: int, d: int) -> core::cmp::Ordering {
    if a * d < c * b {
        core::cmp::Ordering::Less
    } else if a * d > c * b {
        core::cmp::Ordering::Greater
    } else {
        core::cmp::Ordering::Equal
    }
}

impl PartialOrd for Rational {
    /// Orders fractions by the numbers they stand for.
    fn partial_cmp(&self, other: &Rational) -> (r: Option<core::cmp::Ordering>) {
        let lhs = wide_product(self.numerator, other.denominator);
        let rhs = wide_product(other.numerator, self.denominator);
        if lhs < rhs {
            Some(core::cmp::Ordering::Less)
        } else if lhs > rhs {
            Some(core::cmp::Ordering::Greater)
        } else {
            Some(core::cmp::Ordering::Equal)
        }
    }
}

impl vstd::std_specs::cmp::PartialOrdSpecImpl for Rational {
    open spec fn obeys_partial_cmp_spec() -> bool {
        true
    }

    open spec fn partial_cmp_spec(&self, other: &Rational) -> Option<core::cmp::Ordering> {
        Some(compare_values(self.num(), self.den(), other.num(), other.den()))
    }
}

impl<'a> core::ops::Neg for &'a Rational {
    type Output = Rational;

    /// The opposite number.
    fn neg(self) -> (r: Rational) {
        proof {
            use_type_invariant(self);
        }
        Rational::new(-self.numerator, self.denominator)
    }
}

impl<'a> vstd::std_specs::ops::NegSpecImpl for &'a Rational {
    open spec fn obeys_neg_spec() -> bool {
        true
    }

    open spec fn neg_req(self) -> bool {
        self.num() > i64::MIN
    }

    open spec fn neg_spec(self) -> Rational {
        Rational::from_parts(normalized(-self.num(), self.den()).0, normalized(-self.num(), self.den()).1)
    }
}


impl core::ops::Add for Rational {
    type Output = Rational;

    /// The sum, in lowest terms.
    fn add(self, other: Rational) -> (r: Rational) {
        <&Rational as core::ops::Add>::add(&self, &other)
    }
}

impl vstd::std_specs::ops::AddSpecImpl for Rational {
    open spec fn obeys_add_spec() -> bool {
        true
    }

    open spec fn add_req(self, other: Rational) -> bool {
        let n = self.num() * other.den() + self.den() * other.num();
        &&& i64::MIN <= self.num() * other.den() <= i64::MAX
        &&& i64::MIN <= self.den() * other.num() <= i64::MAX
        &&& i64::MIN < n <= i64::MAX
        &&& self.den() * other.den() <= i64::MAX
    }

    open spec fn add_spec(self, other: Rational) -> Rational {
        let n = self.num() * other.den() + self.den() * other.num();
        let d = self.den() * other.den();
        Rational::from_parts(normalized(n, d).0, normalized(n, d).1)
    }
}

impl core::ops::Sub for Rational {
    type Output = Rational;

    /// The difference, in lowest terms.
    fn sub(self, other: Rational) -> (r: Rational) {
        <&Rational as core::ops::Sub>::sub(&self, &other)
    }
}

impl vstd::std_specs::ops::SubSpecImpl for Rational {
    open spec fn obeys_sub_spec() -> bool {
        true
    }

    open spec fn sub_req(self, other: Rational) -> bool {
        let n = self.num() * other.den() - self.den() * other.num();
        &&& i64::MIN <= self.num() * other.den() <= i64::MAX
        &&& i64::MIN <= self.den() * other.num() <= i64::MAX
        &&& i64::MIN < n <= i64::MAX
        &&& self.den() * other.den() <= i64::MAX
    }

    open spec fn sub_spec(self, other: Rational) -> Rational {
        let n = self.num() * other.den() - self.den() * other.num();
        let d = self.den() * other.den();
        Rational::from_parts(normalized(n, d).0, normalized(n, d).1)
    }
}

impl core::ops::Mul for Rational {
    type Output = Rational;

    /// The product, in lowest terms.
    fn mul(self, other: Rational) -> (r: Rational) {
        <&Rational as core::ops::Mul>::mul(&self, &other)
    }
}

impl vstd::std_specs::ops::MulSpecImpl for Rational {
    open spec fn obeys_mul_spec() -> bool {
        true
    }

    open spec fn mul_req(self, other: Rational) -> bool {
        &&& i64::MIN < self.num() * other.num() <= i64::MAX
        &&& self.den() * other.den() <= i64::MAX
    }

    open spec fn mul_spec(self, other: Rational) -> Rational {
        let n = self.num() * other.num();
        let d = self.den() * other.den();
        Rational::from_parts(normalized(n, d).0, normalized(n, d).1)
    }
}

impl core::ops::Div for Rational {
    type Output = Rational;

    /// The quotient, in lowest terms.
    fn div(self, other: Rational) -> (r: Rational) {
        <&Rational as core::ops::Div>::div(&self, &other)
    }
}

impl vstd::std_specs::ops::DivSpecImpl for Rational {
    open spec fn obeys_div_spec() -> bool {
        true
    }

    open spec fn div_req(self, other: Rational) -> bool {
        &&& other.num() != 0
        &&& i64::MIN < self.num() * other.den() <= i64::MAX
        &&& i64::MIN < self.den() * other.num() <= i64::MAX
    }

    open spec fn div_spec(self, other: Rational) -> Rational {
        let n = self.num() * other.den();
        let d = self.den() * other.num();
        Rational::from_parts(normalized(n, d).0, normalized(n, d).1)
    }
}


impl From<i64> for Rational {
    /// The integer `input` as the fraction `input / 1`.
    fn from(input: i64) -> (r: Rational) {
        Rational { numerator: input, denominator: 1 }
    }
}

impl vstd::std_specs::convert::FromSpecImpl<i64> for Rational {
    open spec fn obeys_from_spec() -> bool {
        true
    }

    open spec fn from_spec(input: i64) -> Rational {
        Rational::from_parts(input as int, 1)
    }
}

} // verus!
