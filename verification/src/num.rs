//! Exact rational numbers with 64-bit numerator and denominator.
//!
//! Every arithmetic result on finite numbers is the exact rational value
//! brought to lowest terms; an operation fails (returns `None`) exactly when
//! that lowest-terms form does not fit in `i64` numerator and denominator.
//! Dividing by zero gives an infinity or NaN, which later operations carry on
//! as IEEE arithmetic does.

use vstd::prelude::*;

verus! {

/// `x` is representable as an `i64`.
pub open spec fn fits_i64(x: int) -> bool {
    i64::MIN <= x <= i64::MAX
}

pub open spec fn abs(x: int) -> nat {
    if x < 0 {
        (-x) as nat
    } else {
        x as nat
    }
}

/// Greatest common divisor, by Euclid's algorithm.
pub open spec fn gcd(a: nat, b: nat) -> nat
    decreases b,
{
    if b == 0 {
        a
    } else {
        gcd(b, a % b)
    }
}

/// The lowest-terms form of `n / d`, with a positive denominator, when it fits
/// in `i64` numerator and denominator.
pub open spec fn reduce(n: int, d: int) -> Option<(int, int)> {
    if d == 0 {
        None
    } else {
        let g = gcd(abs(n), abs(d));
        let nn: int = (abs(n) / g) as int;
        let dd: int = (abs(d) / g) as int;
        let sn: int = if (n < 0) != (d < 0) {
            -nn
        } else {
            nn
        };
        if fits_i64(sn) && dd <= i64::MAX {
            Some((sn, dd))
        } else {
            None
        }
    }
}

/// `a` is a finite number: a fraction with a non-zero denominator. The values
/// `(1, 0)`, `(-1, 0)` and `(0, 0)` stand for positive infinity, negative
/// infinity and NaN, as a division by zero gives them.
pub open spec fn is_finite(a: (int, int)) -> bool {
    a.1 != 0
}

pub open spec fn is_nan(a: (int, int)) -> bool {
    a.0 == 0 && a.1 == 0
}

pub open spec fn nan() -> (int, int) {
    (0, 0)
}

/// The sign of `a` (for a finite `a` with a positive denominator, or an
/// infinity): `1`, `-1`, or `0` for zero and NaN.
pub open spec fn sign(a: (int, int)) -> int {
    if a.0 > 0 {
        1
    } else if a.0 < 0 {
        -1
    } else {
        0
    }
}

/// A sum where one side is not finite: NaN absorbs everything, opposite
/// infinities give NaN, and an infinity absorbs a finite number.
pub open spec fn add_special(a: (int, int), b: (int, int)) -> (int, int) {
    if is_nan(a) || is_nan(b) {
        nan()
    } else if !is_finite(a) && !is_finite(b) {
        if a.0 == b.0 {
            a
        } else {
            nan()
        }
    } else if !is_finite(a) {
        a
    } else {
        b
    }
}

/// A product where one side is not finite: NaN for NaN or for an infinity
/// times zero, else the infinity with the product of the signs.
pub open spec fn mul_special(a: (int, int), b: (int, int)) -> (int, int) {
    if is_nan(a) || is_nan(b) || sign(a) * sign(b) == 0 {
        nan()
    } else {
        (sign(a) * sign(b), 0)
    }
}

/// A quotient where a side is not finite or the divisor is zero: NaN for NaN,
/// for two infinities and for zero over zero; an infinity over a finite
/// number keeps its sign (flipped by a negative divisor); a finite number over
/// an infinity is zero; a non-zero number over zero is the infinity of its sign.
pub open spec fn div_special(a: (int, int), b: (int, int)) -> (int, int) {
    if is_nan(a) || is_nan(b) || (!is_finite(a) && !is_finite(b)) {
        nan()
    } else if !is_finite(a) {
        (if b.0 < 0 {
            -a.0
        } else {
            a.0
        }, 0)
    } else if !is_finite(b) {
        (0, 1)
    } else if a.0 == 0 {
        nan()
    } else {
        (sign(a), 0)
    }
}

pub open spec fn spec_add(a: (int, int), b: (int, int)) -> Option<(int, int)> {
    if is_finite(a) && is_finite(b) {
        reduce(a.0 * b.1 + b.0 * a.1, a.1 * b.1)
    } else {
        Some(add_special(a, b))
    }
}

pub open spec fn spec_sub(a: (int, int), b: (int, int)) -> Option<(int, int)> {
    if is_finite(a) && is_finite(b) {
        reduce(a.0 * b.1 - b.0 * a.1, a.1 * b.1)
    } else {
        Some(add_special(a, (-b.0, b.1)))
    }
}

pub open spec fn spec_mul(a: (int, int), b: (int, int)) -> Option<(int, int)> {
    if is_finite(a) && is_finite(b) {
        reduce(a.0 * b.0, a.1 * b.1)
    } else {
        Some(mul_special(a, b))
    }
}

/// The quotient; `None` when it is finite and does not fit.
pub open spec fn spec_div(a: (int, int), b: (int, int)) -> Option<(int, int)> {
    if is_finite(a) && is_finite(b) && b.0 != 0 {
        reduce(a.0 * b.1, a.1 * b.0)
    } else {
        Some(div_special(a, b))
    }
}

/// The value of an optional number.
pub open spec fn opt_view(o: Option<Num>) -> Option<(int, int)> {
    match o {
        Some(x) => Some(x@),
        None => None,
    }
}

/// The value of a number-or-message result.
pub open spec fn res_view(r: Result<Num, String>) -> Result<(int, int), Seq<char>> {
    match r {
        Ok(x) => Ok(x@),
        Err(e) => Err(e@),
    }
}

/// The integer `k` as a rational.
pub open spec fn int_rat(k: int) -> (int, int) {
    (k, 1)
}

pub proof fn lemma_gcd_pos_le(a: nat, b: nat)
    requires
        b > 0,
    ensures
        0 < gcd(a, b) <= b,
    decreases b,
{
    if a % b != 0 {
        lemma_gcd_pos_le(b, a % b);
    } else {
        assert(gcd(b, 0) == b);
    }
}

/// The greatest common divisor divides both numbers.
pub proof fn lemma_gcd_divides(a: nat, b: nat)
    requires
        a > 0 || b > 0,
    ensures
        gcd(a, b) > 0,
        a % gcd(a, b) == 0,
        b % gcd(a, b) == 0,
    decreases b,
{
    if b == 0 {
        vstd::arithmetic::div_mod::lemma_fundamental_div_mod_converse_mod(a as int, a as int, 1, 0);
        vstd::arithmetic::div_mod::lemma_fundamental_div_mod_converse_mod(0, a as int, 0, 0);
    } else {
        lemma_gcd_divides(b, a % b);
        let g = gcd(b, a % b);
        let r = a % b;
        vstd::arithmetic::div_mod::lemma_fundamental_div_mod(b as int, g as int);
        vstd::arithmetic::div_mod::lemma_fundamental_div_mod(r as int, g as int);
        vstd::arithmetic::div_mod::lemma_fundamental_div_mod(a as int, b as int);
        let s = b / g;
        let t = r / g;
        let m = a / b;
        assert(a == (s * m + t) * g) by (nonlinear_arith)
            requires
                b == g * s + 0,
                r == g * t + 0,
                a == b * m + r,
        ;
        vstd::arithmetic::div_mod::lemma_fundamental_div_mod_converse_mod(
            a as int,
            g as int,
            (s * m + t) as int,
            0,
        );
    }
}

/// Reducing keeps the value: `p / q == n / d`, with `q >= 1`.
pub proof fn lemma_reduce_value(n: int, d: int)
    requires
        reduce(n, d) is Some,
    ensures
        (reduce(n, d)->0).0 * d == n * (reduce(n, d)->0).1,
        (reduce(n, d)->0).1 >= 1,
{
    let an = abs(n);
    let ad = abs(d);
    lemma_gcd_divides(an, ad);
    lemma_gcd_pos_le(an, ad);
    let g = gcd(an, ad);
    lemma_div_pos(ad, g);
    vstd::arithmetic::div_mod::lemma_fundamental_div_mod(an as int, g as int);
    vstd::arithmetic::div_mod::lemma_fundamental_div_mod(ad as int, g as int);
    let nn = an / g;
    let dd = ad / g;
    assert(nn * ad == an * dd) by (nonlinear_arith)
        requires
            an == g * nn + 0,
            ad == g * dd + 0,
    ;
    let p = (reduce(n, d)->0).0;
    if n >= 0 && d > 0 {
        assert(p * d == n * dd);
    } else if n < 0 && d > 0 {
        assert(p * d == n * dd) by (nonlinear_arith)
            requires
                p == -nn,
                an == -n,
                ad == d,
                nn * ad == an * dd,
        ;
    } else if n >= 0 && d < 0 {
        assert(p * d == n * dd) by (nonlinear_arith)
            requires
                p == -(nn as int),
                an == n,
                ad == -d,
                nn * ad == an * dd,
        ;
    } else {
        assert(p * d == n * dd) by (nonlinear_arith)
            requires
                p == nn,
                an == -n,
                ad == -d,
                nn * ad == an * dd,
        ;
    }
}

/// Reducing a fraction with a positive denominator never leaves `i64`.
pub proof fn lemma_reduce_fits(n: int, d: int)
    requires
        fits_i64(n),
        1 <= d <= i64::MAX,
    ensures
        reduce(n, d) is Some,
{
    let g = gcd(abs(n), abs(d));
    lemma_gcd_pos_le(abs(n), abs(d));
    lemma_div_le(abs(n), g);
    lemma_div_le(abs(d), g);
}

/// Reducing a fraction whose parts fit never enlarges them.
pub proof fn lemma_reduce_bounded(n: int, d: int)
    requires
        d != 0,
        abs(n) <= i64::MAX,
        abs(d) <= i64::MAX,
    ensures
        reduce(n, d) is Some,
        abs((reduce(n, d)->0).0) <= abs(n),
        (reduce(n, d)->0).1 <= abs(d),
{
    let g = gcd(abs(n), abs(d));
    lemma_gcd_pos_le(abs(n), abs(d));
    lemma_div_le(abs(n), g);
    lemma_div_le(abs(d), g);
}

/// Bezout coefficients: `a * x + b * y == gcd(a, b)`.
proof fn lemma_bezout(a: nat, b: nat) -> (r: (int, int))
    ensures
        a * r.0 + b * r.1 == gcd(a, b),
    decreases b,
{
    if b == 0 {
        (1, 0)
    } else {
        let m = a % b;
        let (x, y) = lemma_bezout(b, m);
        let q = a / b;
        vstd::arithmetic::div_mod::lemma_fundamental_div_mod(a as int, b as int);
        let g = gcd(a, b);
        assert(g == gcd(b, m));
        assert(a * y + b * (x - q * y) == g) by (nonlinear_arith)
            requires
                b * x + m * y == g,
                a == b * q + m,
        ;
        (y, x - q * y)
    }
}

/// Dividing two numbers by their greatest common divisor leaves them coprime.
proof fn lemma_reduced_coprime(a: nat, b: nat)
    requires
        b > 0,
    ensures
        gcd(a / gcd(a, b), b / gcd(a, b)) == 1,
{
    let g = gcd(a, b);
    lemma_gcd_divides(a, b);
    lemma_gcd_pos_le(a, b);
    vstd::arithmetic::div_mod::lemma_fundamental_div_mod(a as int, g as int);
    vstd::arithmetic::div_mod::lemma_fundamental_div_mod(b as int, g as int);
    let a1 = a / g;
    let b1 = b / g;
    lemma_div_pos(b, g);
    let (x, y) = lemma_bezout(a, b);
    assert(a1 * x + b1 * y == 1) by (nonlinear_arith)
        requires
            a * x + b * y == g,
            a == g * a1 + 0,
            b == g * b1 + 0,
            g > 0,
    ;
    let h = gcd(a1, b1);
    lemma_gcd_divides(a1, b1);
    vstd::arithmetic::div_mod::lemma_fundamental_div_mod(a1 as int, h as int);
    vstd::arithmetic::div_mod::lemma_fundamental_div_mod(b1 as int, h as int);
    let s = a1 / h;
    let t = b1 / h;
    assert(h * (s * x + t * y) == 1) by (nonlinear_arith)
        requires
            a1 * x + b1 * y == 1,
            a1 == h * s + 0,
            b1 == h * t + 0,
    ;
    assert(h == 1) by (nonlinear_arith)
        requires
            h * (s * x + t * y) == 1,
            h > 0,
    ;
}

/// Two fractions in lowest terms with positive denominators and the same
/// value are the same fraction.
proof fn lemma_lowest_terms_unique(a: nat, b: nat, c: nat, d: nat)
    requires
        b > 0,
        d > 0,
        gcd(a, b) == 1,
        gcd(c, d) == 1,
        a * d == c * b,
    ensures
        a == c,
        b == d,
{
    let (x, y) = lemma_bezout(a, b);
    let (u, v) = lemma_bezout(c, d);
    let k1 = c * x + d * y;
    let k2 = a * u + b * v;
    assert(d == b * k1) by (nonlinear_arith)
        requires
            a * x + b * y == 1,
            a * d == c * b,
            k1 == c * x + d * y,
    ;
    assert(b == d * k2) by (nonlinear_arith)
        requires
            c * u + d * v == 1,
            a * d == c * b,
            k2 == a * u + b * v,
    ;
    assert(b == d) by (nonlinear_arith)
        requires
            d == b * k1,
            b == d * k2,
            b > 0,
            d > 0,
    ;
    assert(a == c) by (nonlinear_arith)
        requires
            a * d == c * b,
            b == d,
            d > 0,
    ;
}

/// `reduce` depends only on the value of the fraction.
pub proof fn lemma_reduce_canonical(n1: int, d1: int, n2: int, d2: int)
    requires
        d1 != 0,
        d2 != 0,
        n1 * d2 == n2 * d1,
    ensures
        reduce(n1, d1) == reduce(n2, d2),
{
    let a1 = abs(n1);
    let b1 = abs(d1);
    let a2 = abs(n2);
    let b2 = abs(d2);
    let g1 = gcd(a1, b1);
    let g2 = gcd(a2, b2);
    lemma_gcd_divides(a1, b1);
    lemma_gcd_divides(a2, b2);
    lemma_gcd_pos_le(a1, b1);
    lemma_gcd_pos_le(a2, b2);
    vstd::arithmetic::div_mod::lemma_fundamental_div_mod(a1 as int, g1 as int);
    vstd::arithmetic::div_mod::lemma_fundamental_div_mod(b1 as int, g1 as int);
    vstd::arithmetic::div_mod::lemma_fundamental_div_mod(a2 as int, g2 as int);
    vstd::arithmetic::div_mod::lemma_fundamental_div_mod(b2 as int, g2 as int);
    let p1 = a1 / g1;
    let q1 = b1 / g1;
    let p2 = a2 / g2;
    let q2 = b2 / g2;
    lemma_div_pos(b1, g1);
    lemma_div_pos(b2, g2);
    assert(a1 * b2 == a2 * b1) by (nonlinear_arith)
        requires
            n1 * d2 == n2 * d1,
            a1 == (if n1 < 0 { -n1 } else { n1 }),
            b1 == (if d1 < 0 { -d1 } else { d1 }),
            a2 == (if n2 < 0 { -n2 } else { n2 }),
            b2 == (if d2 < 0 { -d2 } else { d2 }),
    ;
    assert(p1 * q2 == p2 * q1) by (nonlinear_arith)
        requires
            a1 * b2 == a2 * b1,
            a1 == g1 * p1 + 0,
            b1 == g1 * q1 + 0,
            a2 == g2 * p2 + 0,
            b2 == g2 * q2 + 0,
            g1 > 0,
            g2 > 0,
    ;
    lemma_reduced_coprime(a1, b1);
    lemma_reduced_coprime(a2, b2);
    lemma_lowest_terms_unique(p1, q1, p2, q2);
    if p1 != 0 {
        assert(a1 > 0) by (nonlinear_arith)
            requires
                a1 == g1 * p1 + 0,
                p1 > 0,
                g1 > 0,
        ;
        assert(a2 > 0) by (nonlinear_arith)
            requires
                a2 == g2 * p2 + 0,
                p2 > 0,
                g2 > 0,
        ;
        assert(((n1 < 0) != (d1 < 0)) == ((n2 < 0) != (d2 < 0))) by (nonlinear_arith)
            requires
                n1 * d2 == n2 * d1,
                n1 != 0,
                n2 != 0,
                d1 != 0,
                d2 != 0,
        ;
    }
}

proof fn lemma_div_le(a: nat, g: nat)
    requires
        g >= 1,
    ensures
        a / g <= a,
{
    assert(a / g <= a) by (nonlinear_arith)
        requires
            g >= 1,
    ;
}

proof fn lemma_div_pos(a: nat, g: nat)
    requires
        1 <= g <= a,
    ensures
        a / g >= 1,
{
    assert(a / g >= 1) by (nonlinear_arith)
        requires
            1 <= g <= a,
    ;
}

proof fn lemma_mul_i64(x: int, y: int)
    requires
        fits_i64(x),
        fits_i64(y),
    ensures
        -0x4000_0000_0000_0000_0000_0000_0000_0000 <= x * y <= 0x4000_0000_0000_0000_0000_0000_0000_0000,
{
    assert(-0x4000_0000_0000_0000_0000_0000_0000_0000 <= x * y <= 0x4000_0000_0000_0000_0000_0000_0000_0000)
        by (nonlinear_arith)
        requires
            -0x8000_0000_0000_0000 <= x <= 0x7fff_ffff_ffff_ffff,
            -0x8000_0000_0000_0000 <= y <= 0x7fff_ffff_ffff_ffff,
    ;
}

/// A numerator times a denominator stays well inside `i128`.
proof fn lemma_mul_num_den(x: int, y: int)
    requires
        fits_i64(x),
        1 <= y <= i64::MAX,
    ensures
        -0x3fff_ffff_ffff_ffff_8000_0000_0000_0000 <= x * y <= 0x3fff_ffff_ffff_ffff_8000_0000_0000_0000,
{
    assert(-0x3fff_ffff_ffff_ffff_8000_0000_0000_0000 <= x * y <= 0x3fff_ffff_ffff_ffff_8000_0000_0000_0000)
        by (nonlinear_arith)
        requires
            -0x8000_0000_0000_0000 <= x <= 0x7fff_ffff_ffff_ffff,
            1 <= y <= 0x7fff_ffff_ffff_ffff,
    ;
}

proof fn lemma_mul_nonzero(x: int, y: int)
    requires
        x != 0,
        y != 0,
    ensures
        x * y != 0,
{
    assert(x * y != 0) by (nonlinear_arith)
        requires
            x != 0,
            y != 0,
    ;
}

fn gcd_u128(a: u128, b: u128) -> (g: u128)
    ensures
        g == gcd(a as nat, b as nat),
    decreases b,
{
    if b == 0 {
        a
    } else {
        gcd_u128(b, a % b)
    }
}

/// An exact rational number `num / den` with `den >= 1`, or one of the
/// values that stand for the infinities and NaN (`den == 0`, see `is_finite`).
#[derive(Clone, Copy, Debug, PartialEq, Eq)]
pub struct Num {
    num: i64,
    den: i64,
}

impl View for Num {
    type V = (int, int);

    closed spec fn view(&self) -> (int, int) {
        (self.num as int, self.den as int)
    }
}

impl Num {
    #[verifier::type_invariant]
    spec fn well_formed(self) -> bool {
        self.den >= 1 || (self.den == 0 && -1 <= self.num <= 1)
    }

    /// Brings `n / d` to lowest terms.
    fn reduce(n: i128, d: i128) -> (r: Option<Num>)
        requires
            d != 0,
            n > i128::MIN,
            d > i128::MIN,
        ensures
            r is Some <==> reduce(n as int, d as int) is Some,
            r matches Some(x) ==> x@ == reduce(n as int, d as int)->0,
    {
        let an: u128 = if n < 0 {
            (-n) as u128
        } else {
            n as u128
        };
        let ad: u128 = if d < 0 {
            (-d) as u128
        } else {
            d as u128
        };
        assert(an == abs(n as int) && ad == abs(d as int));
        let g = gcd_u128(an, ad);
        proof {
            lemma_gcd_pos_le(an as nat, ad as nat);
            lemma_div_le(an as nat, g as nat);
            lemma_div_pos(ad as nat, g as nat);
        }
        let nn = an / g;
        let dd = ad / g;
        if dd > 0x7fff_ffff_ffff_ffff {
            return None;
        }
        let neg = (n < 0) != (d < 0);
        if neg {
            if nn > 0x8000_0000_0000_0000 {
                return None;
            }
            let sn: i128 = -(nn as i128);
            Some(Num { num: sn as i64, den: dd as i64 })
        } else {
            if nn > 0x7fff_ffff_ffff_ffff {
                return None;
            }
            Some(Num { num: nn as i64, den: dd as i64 })
        }
    }

    /// The rational `n / d` for a positive `d`, in lowest terms (this always fits).
    pub fn fraction(n: i64, d: i64) -> (r: Num)
        requires
            d >= 1,
        ensures
            reduce(n as int, d as int) is Some,
            r@ == reduce(n as int, d as int)->0,
    {
        proof {
            lemma_reduce_fits(n as int, d as int);
        }
        Num::reduce(n as i128, d as i128).unwrap()
    }

    /// The integer `k`.
    pub fn from_int(k: i64) -> (r: Num)
        ensures
            r@ == int_rat(k as int),
    {
        Num { num: k, den: 1 }
    }

    /// The rational `n / d` in lowest terms; `None` when `d` is zero or the
    /// lowest-terms form does not fit.
    pub fn ratio(n: i64, d: i64) -> (r: Option<Num>)
        ensures
            r is Some <==> reduce(n as int, d as int) is Some,
            r matches Some(x) ==> x@ == reduce(n as int, d as int)->0,
    {
        if d == 0 {
            None
        } else {
            Num::reduce(n as i128, d as i128)
        }
    }

    pub fn numer(&self) -> (r: i64)
        ensures
            r == self@.0,
    {
        self.num
    }

    pub fn denom(&self) -> (r: i64)
        ensures
            r == self@.1,
            r >= 0,
            r == 0 ==> -1 <= self@.0 <= 1,
    {
        proof {
            use_type_invariant(self);
        }
        self.den
    }

    /// Whether this is the finite number zero.
    pub fn is_zero(&self) -> (r: bool)
        ensures
            r == (self@.0 == 0 && self@.1 != 0),
    {
        self.num == 0 && self.den != 0
    }

    /// Whether this is a finite number (not an infinity or NaN).
    pub fn is_finite(&self) -> (r: bool)
        ensures
            r == is_finite(self@),
            r ==> self@.1 >= 1,
            !r ==> self@.1 == 0 && -1 <= self@.0 <= 1,
    {
        proof {
            use_type_invariant(self);
        }
        self.den != 0
    }

    fn nan() -> (r: Num)
        ensures
            r@ == nan(),
    {
        Num { num: 0, den: 0 }
    }

    fn sign_exec(&self) -> (r: i64)
        ensures
            r == sign(self@),
            -1 <= r <= 1,
    {
        if self.num > 0 {
            1
        } else if self.num < 0 {
            -1
        } else {
            0
        }
    }

    fn add_special_exec(&self, other: &Num, negate: bool) -> (r: Num)
        requires
            !(is_finite(self@) && is_finite(other@)),
        ensures
            r@ == add_special(self@, if negate {
                (-other@.0, other@.1)
            } else {
                other@
            }),
    {
        proof {
            use_type_invariant(self);
            use_type_invariant(other);
        }
        let b_num: i64 = if negate && other.den == 0 {
            -other.num
        } else {
            other.num
        };
        let a_nan = self.num == 0 && self.den == 0;
        let b_nan = other.num == 0 && other.den == 0;
        if a_nan || b_nan {
            Num::nan()
        } else if self.den == 0 && other.den == 0 {
            if self.num == b_num {
                *self
            } else {
                Num::nan()
            }
        } else if self.den == 0 {
            *self
        } else {
            Num { num: b_num, den: 0 }
        }
    }

    fn mul_special_exec(&self, other: &Num) -> (r: Num)
        requires
            !(is_finite(self@) && is_finite(other@)),
        ensures
            r@ == mul_special(self@, other@),
    {
        proof {
            use_type_invariant(self);
            use_type_invariant(other);
        }
        let sa = self.sign_exec();
        let sb = other.sign_exec();
        let s: i64 = if sa == 0 || sb == 0 {
            0
        } else if sa == sb {
            1
        } else {
            -1
        };
        assert(s == sign(self@) * sign(other@)) by (nonlinear_arith)
            requires
                sa == sign(self@),
                sb == sign(other@),
                -1 <= sa <= 1,
                -1 <= sb <= 1,
                s == (if sa == 0 || sb == 0 {
                    0
                } else if sa == sb {
                    1
                } else {
                    -1
                }),
        ;
        if (self.num == 0 && self.den == 0) || (other.num == 0 && other.den == 0) || s == 0 {
            Num::nan()
        } else {
            Num { num: s, den: 0 }
        }
    }

    fn div_special_exec(&self, other: &Num) -> (r: Num)
        requires
            !(is_finite(self@) && is_finite(other@) && other@.0 != 0),
        ensures
            r@ == div_special(self@, other@),
    {
        proof {
            use_type_invariant(self);
            use_type_invariant(other);
        }
        let a_nan = self.num == 0 && self.den == 0;
        let b_nan = other.num == 0 && other.den == 0;
        if a_nan || b_nan || (self.den == 0 && other.den == 0) {
            Num::nan()
        } else if self.den == 0 {
            let n: i64 = if other.num < 0 {
                -self.num
            } else {
                self.num
            };
            Num { num: n, den: 0 }
        } else if other.den == 0 {
            Num { num: 0, den: 1 }
        } else if self.num == 0 {
            Num::nan()
        } else {
            Num { num: self.sign_exec(), den: 0 }
        }
    }

    pub fn add(&self, other: &Num) -> (r: Option<Num>)
        ensures
            opt_view(r) == spec_add(self@, other@),
    {
        proof {
            use_type_invariant(self);
            use_type_invariant(other);
        }
        if self.den == 0 || other.den == 0 {
            return Some(self.add_special_exec(other, false));
        }
        proof {
            lemma_mul_num_den(self.num as int, other.den as int);
            lemma_mul_num_den(other.num as int, self.den as int);
            lemma_mul_num_den(self.den as int, other.den as int);
            lemma_mul_nonzero(self.den as int, other.den as int);
        }
        let p = (self.num as i128) * (other.den as i128);
        let q = (other.num as i128) * (self.den as i128);
        let d = (self.den as i128) * (other.den as i128);
        Num::reduce(p + q, d)
    }

    pub fn sub(&self, other: &Num) -> (r: Option<Num>)
        ensures
            opt_view(r) == spec_sub(self@, other@),
    {
        proof {
            use_type_invariant(self);
            use_type_invariant(other);
        }
        if self.den == 0 || other.den == 0 {
            return Some(self.add_special_exec(other, true));
        }
        proof {
            lemma_mul_num_den(self.num as int, other.den as int);
            lemma_mul_num_den(other.num as int, self.den as int);
            lemma_mul_num_den(self.den as int, other.den as int);
            lemma_mul_nonzero(self.den as int, other.den as int);
        }
        let p = (self.num as i128) * (other.den as i128);
        let q = (other.num as i128) * (self.den as i128);
        let d = (self.den as i128) * (other.den as i128);
        Num::reduce(p - q, d)
    }

    pub fn mul(&self, other: &Num) -> (r: Option<Num>)
        ensures
            opt_view(r) == spec_mul(self@, other@),
    {
        proof {
            use_type_invariant(self);
            use_type_invariant(other);
        }
        if self.den == 0 || other.den == 0 {
            return Some(self.mul_special_exec(other));
        }
        proof {
            lemma_mul_i64(self.num as int, other.num as int);
            lemma_mul_num_den(self.den as int, other.den as int);
            lemma_mul_nonzero(self.den as int, other.den as int);
        }
        let p = (self.num as i128) * (other.num as i128);
        let d = (self.den as i128) * (other.den as i128);
        Num::reduce(p, d)
    }

    pub fn div(&self, other: &Num) -> (r: Option<Num>)
        ensures
            opt_view(r) == spec_div(self@, other@),
    {
        proof {
            use_type_invariant(self);
            use_type_invariant(other);
        }
        if self.den == 0 || other.den == 0 || other.num == 0 {
            return Some(self.div_special_exec(other));
        }
        proof {
            lemma_mul_num_den(self.num as int, other.den as int);
            lemma_mul_num_den(other.num as int, self.den as int);
            lemma_mul_nonzero(self.den as int, other.num as int);
        }
        let p = (self.num as i128) * (other.den as i128);
        let d = (self.den as i128) * (other.num as i128);
        Num::reduce(p, d)
    }
}

} // verus!
