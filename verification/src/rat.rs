//! Exact rational arithmetic for split ratios.
//!
//! A split ratio is an exact fraction of two machine integers. Keeping ratios
//! as exact fractions (instead of floating-point numbers) makes "the ratios of
//! a transaction sum to exactly one" a meaningful, decidable check, which the
//! validation rules depend on.
//!
//! The executable operations reduce intermediate fractions by their greatest
//! common divisor and report failure (`None`) exactly when a reduced result
//! does not fit the fraction's machine integers.

use vstd::prelude::*;
use vstd::arithmetic::div_mod::{
    lemma_fundamental_div_mod, lemma_fundamental_div_mod_converse_div,
    lemma_fundamental_div_mod_converse_mod,
};

verus! {

/// An exact fraction `num / den`. Well formed when `den > 0`.
#[derive(Clone, Copy, Debug, PartialEq, Eq, Structural)]
pub struct Rat {
    pub num: i64,
    pub den: i64,
}

/// Magnitude of an integer, as a natural number.
pub open spec fn mag(n: int) -> nat {
    if n >= 0 {
        n as nat
    } else {
        (-n) as nat
    }
}

/// Greatest common divisor by Euclid's rule; `gcd(a, 0) == a`.
pub open spec fn gcd(a: nat, b: nat) -> nat
    decreases b,
{
    if b == 0 {
        a
    } else {
        gcd(b, a % b)
    }
}

/// Two fractions `n1/d1` and `n2/d2` denote the same rational number.
/// Meaningful when both denominators are positive.
pub open spec fn frac_eq(n1: int, d1: int, n2: int, d2: int) -> bool {
    n1 * d2 == n2 * d1
}

/// Numerator of the raw (unreduced) sum of two fractions.
pub open spec fn add_n(n1: int, d1: int, n2: int, d2: int) -> int {
    n1 * d2 + n2 * d1
}

/// Denominator of the raw (unreduced) sum of two fractions.
pub open spec fn add_d(d1: int, d2: int) -> int {
    d1 * d2
}

/// The common divisor by which a raw fraction `n / d` is reduced.
pub open spec fn red_g(n: int, d: int) -> int {
    gcd(mag(n), mag(d)) as int
}

/// Numerator of the reduced form of `n / d`.
pub open spec fn red_n(n: int, d: int) -> int {
    n / red_g(n, d)
}

/// Denominator of the reduced form of `n / d`.
pub open spec fn red_d(n: int, d: int) -> int {
    d / red_g(n, d)
}

/// The reduced form of `n / d` fits the fraction's machine integers.
pub open spec fn red_fits(n: int, d: int) -> bool {
    &&& -(i64::MAX as int) <= red_n(n, d) <= i64::MAX as int
    &&& red_d(n, d) <= i64::MAX as int
}

/// The raw sum of two well-formed fractions stays inside the wide integers
/// the executable addition computes with, and its reduced form fits.
pub open spec fn add_ok(a: Rat, b: Rat) -> bool {
    let n = add_n(a.num as int, a.den as int, b.num as int, b.den as int);
    let d = add_d(a.den as int, b.den as int);
    &&& i128::MIN < n <= i128::MAX
    &&& red_fits(n, d)
}

impl Rat {
    /// A fraction is well formed when its denominator is positive.
    pub open spec fn wf(self) -> bool {
        self.den > 0
    }

    /// This fraction denotes the same rational number as `n / d`.
    pub open spec fn is_frac(self, n: int, d: int) -> bool {
        frac_eq(self.num as int, self.den as int, n, d)
    }

    /// Build a fraction from a numerator and a positive denominator.
    pub fn new(num: i64, den: i64) -> (r: Rat)
        requires
            den > 0,
        ensures
            r.wf(),
            r.num == num,
            r.den == den,
    {
        Rat { num, den }
    }

    /// The fraction `0 / 1`.
    pub fn zero() -> (r: Rat)
        ensures
            r.wf(),
            r.num == 0,
            r.den == 1,
    {
        Rat { num: 0, den: 1 }
    }

    /// The fraction `1 / 1`.
    pub fn one() -> (r: Rat)
        ensures
            r.wf(),
            r.num == 1,
            r.den == 1,
    {
        Rat { num: 1, den: 1 }
    }

    /// Whether the fraction denotes a strictly positive rational.
    pub fn is_positive(&self) -> (b: bool)
        requires
            self.wf(),
        ensures
            b == (self.num > 0),
    {
        self.num > 0
    }

    /// Whether the fraction denotes zero.
    pub fn is_zero(&self) -> (b: bool)
        requires
            self.wf(),
        ensures
            b == (self.num == 0),
    {
        self.num == 0
    }

    /// Whether two well-formed fractions denote the same rational number.
    pub fn eq_frac(&self, other: &Rat) -> (b: bool)
        requires
            self.wf(),
            other.wf(),
        ensures
            b == frac_eq(self.num as int, self.den as int, other.num as int, other.den as int),
    {
        proof {
            lemma_i64_mul_in_i128(self.num as int, other.den as int);
            lemma_i64_mul_in_i128(other.num as int, self.den as int);
        }
        let left: i128 = (self.num as i128) * (other.den as i128);
        let right: i128 = (other.num as i128) * (self.den as i128);
        left == right
    }

    /// Exact sum of two fractions, reduced; `None` exactly when the reduced
    /// sum does not fit the fraction's machine integers.
    pub fn add(self, other: Rat) -> (r: Option<Rat>)
        requires
            self.wf(),
            other.wf(),
        ensures
            r == checked_add_spec(self, other),
            r is Some <==> add_ok(self, other),
            r matches Some(q) ==> {
                let n = add_n(self.num as int, self.den as int, other.num as int, other.den as int);
                let d = add_d(self.den as int, other.den as int);
                &&& q.wf()
                &&& q.num as int == red_n(n, d)
                &&& q.den as int == red_d(n, d)
                &&& frac_eq(q.num as int, q.den as int, n, d)
            },
    {
        proof {
            lemma_i64_mul_in_i128(self.num as int, other.den as int);
            lemma_i64_mul_in_i128(other.num as int, self.den as int);
            lemma_i64_mul_in_i128(self.den as int, other.den as int);
            lemma_pos_mul_pos(self.den as int, other.den as int);
        }
        let p1: i128 = (self.num as i128) * (other.den as i128);
        let p2: i128 = (other.num as i128) * (self.den as i128);
        let d: i128 = (self.den as i128) * (other.den as i128);
        match p1.checked_add(p2) {
            Some(n) => {
                if n == i128::MIN {
                    None
                } else {
                    reduce_fit(n, d)
                }
            },
            None => None,
        }
    }

    /// Exact quotient `self / other`, reduced; `None` exactly when `other`
    /// denotes zero or the reduced quotient does not fit.
    pub fn div(self, other: Rat) -> (r: Option<Rat>)
        requires
            self.wf(),
            other.wf(),
        ensures
            r == checked_div_spec(self, other),
            r is Some <==> other.num != 0 && red_fits(
                div_n(self.num as int, self.den as int, other.num as int, other.den as int),
                div_d(self.num as int, self.den as int, other.num as int, other.den as int),
            ),
            r matches Some(q) ==> {
                let n = div_n(self.num as int, self.den as int, other.num as int, other.den as int);
                let d = div_d(self.num as int, self.den as int, other.num as int, other.den as int);
                &&& q.wf()
                &&& q.num as int == red_n(n, d)
                &&& q.den as int == red_d(n, d)
                &&& frac_eq(q.num as int, q.den as int, n, d)
            },
    {
        if other.num == 0 {
            return None;
        }
        proof {
            lemma_i64_mul_in_i128(self.num as int, other.den as int);
            lemma_i64_mul_in_i128(self.den as int, other.num as int);
        }
        let raw_n: i128 = (self.num as i128) * (other.den as i128);
        let raw_d: i128 = (self.den as i128) * (other.num as i128);
        if raw_d < 0 {
            proof {
                lemma_neg_flip(self.num as int * other.den as int, self.den as int * other.num as int);
            }
            reduce_fit(-raw_n, -raw_d)
        } else {
            proof {
                lemma_pos_mul_pos_of_nonneg(self.den as int, other.num as int);
            }
            reduce_fit(raw_n, raw_d)
        }
    }
}

/// Specification mirror of [`Rat::div`]: the reduced exact quotient, or
/// `None` exactly when the divisor denotes zero or the reduced quotient does
/// not fit the fraction's machine integers.
pub open spec fn checked_div_spec(a: Rat, b: Rat) -> Option<Rat> {
    let n = div_n(a.num as int, a.den as int, b.num as int, b.den as int);
    let d = div_d(a.num as int, a.den as int, b.num as int, b.den as int);
    if b.num == 0 {
        None
    } else if red_fits(n, d) {
        Some(Rat { num: red_n(n, d) as i64, den: red_d(n, d) as i64 })
    } else {
        None
    }
}

/// Numerator of the raw quotient `(n1/d1) / (n2/d2)`, with the sign moved so
/// that the denominator `div_d` is positive.
pub open spec fn div_n(n1: int, d1: int, n2: int, d2: int) -> int {
    if d1 * n2 < 0 {
        -(n1 * d2)
    } else {
        n1 * d2
    }
}

/// Denominator of the raw quotient `(n1/d1) / (n2/d2)`, made positive.
pub open spec fn div_d(n1: int, d1: int, n2: int, d2: int) -> int {
    if d1 * n2 < 0 {
        -(d1 * n2)
    } else {
        d1 * n2
    }
}

/// Greatest common divisor, executably.
pub fn gcd_u128(a0: u128, b0: u128) -> (g: u128)
    ensures
        g as nat == gcd(a0 as nat, b0 as nat),
{
    let mut a: u128 = a0;
    let mut b: u128 = b0;
    while b != 0
        invariant
            gcd(a as nat, b as nat) == gcd(a0 as nat, b0 as nat),
        decreases b,
    {
        let t: u128 = a % b;
        a = b;
        b = t;
    }
    a
}

/// Reduce the fraction `n / d` by its greatest common divisor and return it
/// as machine integers, or `None` exactly when the reduced form does not fit.
fn reduce_fit(n: i128, d: i128) -> (r: Option<Rat>)
    requires
        d > 0,
        n > i128::MIN,
    ensures
        r is Some <==> red_fits(n as int, d as int),
        r matches Some(q) ==> {
            &&& q.wf()
            &&& q.num as int == red_n(n as int, d as int)
            &&& q.den as int == red_d(n as int, d as int)
            &&& frac_eq(q.num as int, q.den as int, n as int, d as int)
        },
{
    let neg: bool = n < 0;
    let na: u128 = if n < 0 {
        (-n) as u128
    } else {
        n as u128
    };
    let da: u128 = d as u128;
    let g: u128 = gcd_u128(na, da);
    proof {
        assert(na as nat == mag(n as int));
        assert(da as nat == mag(d as int));
        lemma_gcd_divides(na as nat, da as nat);
        assert(g as int == red_g(n as int, d as int));
        assert(g > 0);
        lemma_div_exact_sign(n as int, g as int);
        lemma_div_exact_sign(d as int, g as int);
        lemma_reduced_frac_eq(n as int, d as int, g as int);
        assert(d as int / g as int > 0) by (nonlinear_arith)
            requires
                d > 0,
                g > 0,
                (g as int) * (d as int / g as int) == d as int,
        ;
        vstd::arithmetic::div_mod::lemma_div_pos_is_pos(na as int, g as int);
    }
    let rn: u128 = na / g;
    let rd: u128 = da / g;
    proof {
        if n >= 0 {
            assert(red_n(n as int, d as int) == rn as int);
        } else {
            assert(red_n(n as int, d as int) == -(rn as int));
        }
        assert(red_d(n as int, d as int) == rd as int);
    }
    if rn <= i64::MAX as u128 && rd <= i64::MAX as u128 {
        let num: i64 = if neg {
            -((rn as i64))
        } else {
            rn as i64
        };
        Some(Rat { num, den: rd as i64 })
    } else {
        None
    }
}

/// The product of two `i64` values fits in an `i128`.
pub proof fn lemma_i64_mul_in_i128(a: int, b: int)
    requires
        i64::MIN <= a <= i64::MAX,
        i64::MIN <= b <= i64::MAX,
    ensures
        i128::MIN < a * b <= i128::MAX,
{
    assert(i128::MIN < a * b <= i128::MAX) by (nonlinear_arith)
        requires
            -0x8000_0000_0000_0000 <= a <= 0x7fff_ffff_ffff_ffff,
            -0x8000_0000_0000_0000 <= b <= 0x7fff_ffff_ffff_ffff,
    ;
}

/// The product of two positive integers is positive.
pub proof fn lemma_pos_mul_pos(a: int, b: int)
    requires
        a > 0,
        b > 0,
    ensures
        a * b > 0,
{
    assert(a * b > 0) by (nonlinear_arith)
        requires
            a > 0,
            b > 0,
    ;
}

proof fn lemma_pos_mul_pos_of_nonneg(a: int, b: int)
    requires
        a > 0,
        b != 0,
        a * b >= 0,
    ensures
        a * b > 0,
{
    assert(a * b != 0) by (nonlinear_arith)
        requires
            a > 0,
            b != 0,
    ;
}

proof fn lemma_neg_flip(n: int, d: int)
    ensures
        frac_eq(-n, -d, n, d) == frac_eq(n, d, n, d),
        (-n) * d == -(n * d),
{
    assert((-n) * d == -(n * d)) by (nonlinear_arith);
    assert((-n) * d == n * (-d)) by (nonlinear_arith);
}

/// The greatest common divisor divides both arguments and is positive
/// unless both arguments are zero.
pub proof fn lemma_gcd_divides(a: nat, b: nat)
    ensures
        a > 0 || b > 0 ==> gcd(a, b) > 0,
        gcd(a, b) > 0 ==> a as int % (gcd(a, b) as int) == 0,
        gcd(a, b) > 0 ==> b as int % (gcd(a, b) as int) == 0,
    decreases b,
{
    if b == 0 {
        if a > 0 {
            lemma_mod_self_zero(a as int);
        }
    } else {
        lemma_gcd_divides(b, a % b);
        let g = gcd(a, b) as int;
        if g > 0 {
            // a == (a / b) * b + a % b, and g divides both b and a % b.
            lemma_fundamental_div_mod(a as int, b as int);
            lemma_divides_linear(g, b as int, (a % b) as int, a as int / b as int);
        }
    }
}

proof fn lemma_mod_self_zero(a: int)
    requires
        a > 0,
    ensures
        a % a == 0,
{
    assert(a == 1 * a + 0) by (nonlinear_arith);
    lemma_fundamental_div_mod_converse_mod(a, a, 1, 0);
}

/// If `g` divides `x` and `y`, it divides `q * x + y`.
proof fn lemma_divides_linear(g: int, x: int, y: int, q: int)
    requires
        g > 0,
        x % g == 0,
        y % g == 0,
    ensures
        (q * x + y) % g == 0,
{
    lemma_fundamental_div_mod(x, g);
    lemma_fundamental_div_mod(y, g);
    let xq = x / g;
    let yq = y / g;
    assert(q * x + y == (q * xq + yq) * g + 0) by (nonlinear_arith)
        requires
            x == g * xq,
            y == g * yq,
    ;
    lemma_fundamental_div_mod_converse_mod(q * x + y, g, q * xq + yq, 0);
}

/// Exact division: when `g` divides the magnitude of `n`, `g * (n / g) == n`,
/// and division by `g` maps magnitudes through.
proof fn lemma_div_exact_sign(n: int, g: int)
    requires
        g > 0,
        mag(n) as int % g == 0,
    ensures
        n % g == 0,
        g * (n / g) == n,
        n >= 0 ==> n / g == mag(n) as int / g,
        n < 0 ==> n / g == -(mag(n) as int / g),
{
    let m = mag(n) as int;
    lemma_fundamental_div_mod(m, g);
    let k = m / g;
    assert(m == g * k);
    if n >= 0 {
        assert(n == k * g + 0) by (nonlinear_arith)
            requires
                m == g * k,
                n == m,
        ;
        lemma_fundamental_div_mod_converse_div(n, g, k, 0);
        lemma_fundamental_div_mod_converse_mod(n, g, k, 0);
        assert(g * (n / g) == n) by (nonlinear_arith)
            requires
                n / g == k,
                n == g * k,
        ;
    } else {
        assert(n == (-k) * g + 0) by (nonlinear_arith)
            requires
                m == g * k,
                n == -m,
        ;
        lemma_fundamental_div_mod_converse_div(n, g, -k, 0);
        lemma_fundamental_div_mod_converse_mod(n, g, -k, 0);
        assert(g * (n / g) == n) by (nonlinear_arith)
            requires
                n / g == -k,
                n == (-k) * g,
        ;
    }
}

/// Reducing a fraction by a common divisor does not change the rational
/// number it denotes.
proof fn lemma_reduced_frac_eq(n: int, d: int, g: int)
    requires
        g > 0,
        n % g == 0,
        d % g == 0,
        g * (n / g) == n,
        g * (d / g) == d,
    ensures
        frac_eq(n / g, d / g, n, d),
{
    let rn = n / g;
    let rd = d / g;
    assert(rn * d == n * rd) by (nonlinear_arith)
        requires
            n == g * rn,
            d == g * rd,
    ;
}

/// Denoting the same rational number is preserved by adding the same
/// fraction to both sides.
pub proof fn lemma_frac_eq_add(n1: int, d1: int, n2: int, d2: int, n: int, d: int)
    requires
        frac_eq(n1, d1, n2, d2),
    ensures
        frac_eq(add_n(n1, d1, n, d), add_d(d1, d), add_n(n2, d2, n, d), add_d(d2, d)),
{
    assert((n1 * d + n * d1) * (d2 * d) == (n1 * d2) * (d * d) + ((n * d1) * d2) * d)
        by (nonlinear_arith);
    assert((n2 * d + n * d2) * (d1 * d) == (n2 * d1) * (d * d) + ((n * d2) * d1) * d)
        by (nonlinear_arith);
    assert(((n * d2) * d1) * d == ((n * d1) * d2) * d) by (nonlinear_arith);
    assert((n1 * d2) * (d * d) == (n2 * d1) * (d * d)) by (nonlinear_arith)
        requires
            n1 * d2 == n2 * d1,
    ;
}

/// Specification mirror of [`Rat::add`]: the reduced exact sum, or `None`
/// exactly when it does not fit the fraction's machine integers.
pub open spec fn checked_add_spec(a: Rat, b: Rat) -> Option<Rat> {
    if add_ok(a, b) {
        let n = add_n(a.num as int, a.den as int, b.num as int, b.den as int);
        let d = add_d(a.den as int, b.den as int);
        Some(Rat { num: red_n(n, d) as i64, den: red_d(n, d) as i64 })
    } else {
        None
    }
}

/// Numerator of the exact (unreduced) sum of a sequence of fractions.
pub open spec fn sum_n(s: Seq<Rat>) -> int
    decreases s.len(),
{
    if s.len() == 0 {
        0
    } else {
        add_n(sum_n(s.drop_last()), sum_d(s.drop_last()), s.last().num as int, s.last().den as int)
    }
}

/// Denominator of the exact (unreduced) sum of a sequence of fractions.
pub open spec fn sum_d(s: Seq<Rat>) -> int
    decreases s.len(),
{
    if s.len() == 0 {
        1
    } else {
        add_d(sum_d(s.drop_last()), s.last().den as int)
    }
}

/// Left-to-right reduced summation of a sequence of fractions, `None` as soon
/// as one reduced partial sum does not fit the fraction's machine integers.
pub open spec fn checked_sum(s: Seq<Rat>) -> Option<Rat>
    decreases s.len(),
{
    if s.len() == 0 {
        Some(Rat { num: 0, den: 1 })
    } else {
        match checked_sum(s.drop_last()) {
            Some(acc) => checked_add_spec(acc, s.last()),
            None => None,
        }
    }
}

/// Sum a sequence of well-formed fractions exactly; `None` exactly when a
/// reduced partial sum does not fit the fraction's machine integers.
pub fn sum_rats(rs: &Vec<Rat>) -> (r: Option<Rat>)
    requires
        forall|i: int| 0 <= i < rs@.len() ==> rs@[i].wf(),
    ensures
        r == checked_sum(rs@),
{
    let mut acc: Rat = Rat::zero();
    let mut i: usize = 0;
    while i < rs.len()
        invariant
            0 <= i <= rs@.len(),
            forall|j: int| 0 <= j < rs@.len() ==> rs@[j].wf(),
            acc.wf(),
            checked_sum(rs@.take(i as int)) == Some(acc),
        decreases rs@.len() - i,
    {
        proof {
            assert(rs@.take(i as int + 1).drop_last() =~= rs@.take(i as int));
            assert(rs@.take(i as int + 1).last() == rs@[i as int]);
        }
        match acc.add(rs[i]) {
            Some(next) => {
                acc = next;
            },
            None => {
                proof {
                    lemma_checked_sum_extends_none(rs@, i as int + 1);
                }
                return None;
            },
        }
        i = i + 1;
    }
    proof {
        assert(rs@.take(rs@.len() as int) =~= rs@);
    }
    Some(acc)
}

/// Once a prefix of the summation has failed, the whole summation fails.
proof fn lemma_checked_sum_extends_none(s: Seq<Rat>, i: int)
    requires
        0 <= i <= s.len(),
        checked_sum(s.take(i)) is None,
    ensures
        checked_sum(s) is None,
    decreases s.len() - i,
{
    if i == s.len() {
        assert(s.take(i) =~= s);
    } else {
        assert(s.take(i + 1).drop_last() =~= s.take(i));
        lemma_checked_sum_extends_none(s, i + 1);
    }
}

/// Reducing a raw fraction with a positive denominator keeps its value and a
/// positive denominator.
pub proof fn lemma_reduce_value(n: int, d: int)
    requires
        d > 0,
    ensures
        red_d(n, d) > 0,
        frac_eq(red_n(n, d), red_d(n, d), n, d),
{
    lemma_gcd_divides(mag(n), mag(d));
    let g = red_g(n, d);
    lemma_div_exact_sign(n, g);
    lemma_div_exact_sign(d, g);
    lemma_reduced_frac_eq(n, d, g);
    assert(d / g > 0) by (nonlinear_arith)
        requires
            d > 0,
            g > 0,
            g * (d / g) == d,
    ;
}

/// A defined reduced summation denotes exactly the unreduced exact sum, whose
/// denominator is positive.
pub proof fn lemma_checked_sum_value(s: Seq<Rat>)
    requires
        forall|i: int| 0 <= i < s.len() ==> s[i].wf(),
        checked_sum(s) is Some,
    ensures
        sum_d(s) > 0,
        checked_sum(s)->Some_0.wf(),
        frac_eq(
            checked_sum(s)->Some_0.num as int,
            checked_sum(s)->Some_0.den as int,
            sum_n(s),
            sum_d(s),
        ),
    decreases s.len(),
{
    if s.len() == 0 {
    } else {
        let pref = s.drop_last();
        let last = s.last();
        lemma_checked_sum_value(pref);
        let acc = checked_sum(pref)->Some_0;
        let n = add_n(acc.num as int, acc.den as int, last.num as int, last.den as int);
        let d = add_d(acc.den as int, last.den as int);
        lemma_pos_mul_pos(acc.den as int, last.den as int);
        lemma_pos_mul_pos(sum_d(pref), last.den as int);
        lemma_reduce_value(n, d);
        let q = checked_sum(s)->Some_0;
        // q == reduced(n, d), which denotes n / d; n / d denotes the exact sum.
        lemma_frac_eq_add(
            acc.num as int,
            acc.den as int,
            sum_n(pref),
            sum_d(pref),
            last.num as int,
            last.den as int,
        );
        lemma_frac_eq_trans(
            q.num as int,
            q.den as int,
            n,
            d,
            sum_n(s),
            sum_d(s),
        );
    }
}

/// Denoting the same rational number is transitive across a fraction with a
/// nonzero denominator.
pub proof fn lemma_frac_eq_trans(n1: int, d1: int, n2: int, d2: int, n3: int, d3: int)
    requires
        d2 != 0,
        frac_eq(n1, d1, n2, d2),
        frac_eq(n2, d2, n3, d3),
    ensures
        frac_eq(n1, d1, n3, d3),
{
    assert(n1 * d3 == n3 * d1) by (nonlinear_arith)
        requires
            d2 != 0,
            n1 * d2 == n2 * d1,
            n2 * d3 == n3 * d2,
    ;
}

} // verus!
