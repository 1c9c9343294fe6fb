//! Exact rational arithmetic.
//!
//! The mathematical model is `Q`, a numerator over a positive denominator in
//! lowest terms. The executable type `Rat` stores such a pair in `i64` fields;
//! every operation reduces its result and reports an overflow instead of
//! returning a wrong value, so no computation ever drifts from the exact
//! rational it stands for.

use vstd::arithmetic::div_mod::{
    lemma_div_by_multiple, lemma_fundamental_div_mod, lemma_mod_division_less_than_divisor,
};
use vstd::prelude::*;

verus! {

/// A mathematical rational number: `n / d` with `d >= 1`.
pub struct Q {
    pub n: int,
    pub d: int,
}

/// Magnitude of an integer.
pub open spec fn int_abs(x: int) -> nat {
    if x >= 0 {
        x as nat
    } else {
        (-x) as nat
    }
}

/// Greatest common divisor by Euclid's recursion.
pub open spec fn gcd(a: nat, b: nat) -> nat
    decreases b,
{
    if b == 0 {
        a
    } else {
        gcd(b, a % b)
    }
}

/// `f` divides `x`.
pub open spec fn divides(f: nat, x: nat) -> bool {
    exists|k: nat| x == #[trigger] (k * f)
}

/// The gcd of two numbers, the second positive, is positive and divides both.
pub proof fn lemma_gcd_divides(a: nat, b: nat)
    requires
        b >= 1,
    ensures
        gcd(a, b) >= 1,
        divides(gcd(a, b), a),
        divides(gcd(a, b), b),
    decreases b,
{
    let r = a % b;
    lemma_mod_division_less_than_divisor(a as int, b as int);
    if r == 0 {
        assert(gcd(a, b) == gcd(b, 0) == b);
        lemma_fundamental_div_mod(a as int, b as int);
        assert(a == b * (a as int / b as int) + r);
        let q = a as int / b as int;
        assert(q >= 0) by (nonlinear_arith)
            requires
                a == b * q,
                a >= 0,
                b >= 1,
        ;
        assert(a == (q as nat) * b) by (nonlinear_arith)
            requires
                a == b * q,
                q >= 0,
        ;
        assert(divides(b, a));
        assert(b == 1nat * b);
        assert(divides(b, b));
    } else {
        lemma_gcd_divides(b, r);
        let g = gcd(b, r);
        assert(gcd(a, b) == g);
        let kb = choose|k: nat| b == #[trigger] (k * g);
        let kr = choose|k: nat| r == #[trigger] (k * g);
        lemma_fundamental_div_mod(a as int, b as int);
        let q = a as int / b as int;
        assert(a == b * q + r);
        assert(q >= 0) by (nonlinear_arith)
            requires
                a == b * q + r,
                a >= 0,
                0 <= r < b,
        ;
        assert(a == (kb * g) * q + kr * g);
        assert(a == ((kb * q + kr) as nat) * g) by (nonlinear_arith)
            requires
                a == (kb * g) * q + kr * g,
                q >= 0,
        ;
        assert(divides(g, a));
    }
}

/// Any common divisor of `a` and `b` divides their gcd.
pub proof fn lemma_gcd_greatest(a: nat, b: nat, c: nat)
    requires
        c >= 1,
        divides(c, a),
        divides(c, b),
    ensures
        divides(c, gcd(a, b)),
    decreases b,
{
    if b == 0 {
        assert(gcd(a, b) == a);
    } else {
        let r = a % b;
        lemma_mod_division_less_than_divisor(a as int, b as int);
        let ka = choose|k: nat| a == #[trigger] (k * c);
        let kb = choose|k: nat| b == #[trigger] (k * c);
        lemma_fundamental_div_mod(a as int, b as int);
        let q = a as int / b as int;
        assert(r == a - b * q);
        assert(r == ka * c - (kb * c) * q);
        assert(ka * c - (kb * c) * q == (ka - kb * q) * c) by (nonlinear_arith);
        let kr = ka - kb * q;
        assert(kr >= 0) by (nonlinear_arith)
            requires
                r == kr * c,
                r >= 0,
                c >= 1,
        ;
        assert(r == (kr as nat) * c);
        assert(divides(c, r));
        lemma_gcd_greatest(b, r, c);
        assert(gcd(a, b) == gcd(b, r));
    }
}

/// Dividing two numbers by their gcd leaves them coprime.
pub proof fn lemma_gcd_reduced(a: nat, b: nat)
    requires
        b >= 1,
    ensures
        gcd(a / gcd(a, b), b / gcd(a, b)) == 1,
{
    let g = gcd(a, b);
    lemma_gcd_divides(a, b);
    let ka = choose|k: nat| a == #[trigger] (k * g);
    let kb = choose|k: nat| b == #[trigger] (k * g);
    lemma_div_by_multiple(ka as int, g as int);
    lemma_div_by_multiple(kb as int, g as int);
    assert(a / g == ka && b / g == kb);
    assert(kb >= 1) by (nonlinear_arith)
        requires
            b == kb * g,
            b >= 1,
    ;
    let h = gcd(ka, kb);
    lemma_gcd_divides(ka, kb);
    let xa = choose|k: nat| ka == #[trigger] (k * h);
    let xb = choose|k: nat| kb == #[trigger] (k * h);
    assert(a == xa * (h * g) && b == xb * (h * g)) by (nonlinear_arith)
        requires
            a == ka * g,
            b == kb * g,
            ka == xa * h,
            kb == xb * h,
    ;
    assert(divides((h * g) as nat, a) && divides((h * g) as nat, b));
    assert(h * g >= 1) by (nonlinear_arith)
        requires
            h >= 1,
            g >= 1,
    ;
    lemma_gcd_greatest(a, b, (h * g) as nat);
    let m = choose|k: nat| g == #[trigger] (k * (h * g) as nat);
    assert(h == 1) by (nonlinear_arith)
        requires
            g == m * (h * g),
            g >= 1,
            h >= 1,
    ;
}

/// Euclid's recursion stated once unrolled: the gcd with 1 is 1.
pub proof fn lemma_gcd_one(a: nat)
    ensures
        gcd(a, 1) == 1,
{
    lemma_fundamental_div_mod(a as int, 1int);
    lemma_mod_division_less_than_divisor(a as int, 1int);
    assert(a % 1 == 0);
    assert(gcd(a, 1) == gcd(1, 0));
}

/// The rational zero.
pub open spec fn q_zero() -> Q {
    Q { n: 0, d: 1 }
}

/// A rational in lowest terms over a positive denominator.
pub open spec fn q_wf(q: Q) -> bool {
    q.d >= 1 && gcd(int_abs(q.n), q.d as nat) == 1
}

/// Reduce `n / d` (with `d >= 1`) to lowest terms.
pub open spec fn norm(n: int, d: int) -> Q {
    if d <= 0 {
        q_zero()
    } else {
        let g = gcd(int_abs(n), d as nat) as int;
        let m = int_abs(n) as int / g;
        Q { n: if n >= 0 { m } else { -m }, d: d / g }
    }
}

/// Reduction yields a well-formed rational with the same value, the same
/// sign, and magnitudes no larger than what it was given.
pub proof fn lemma_norm(n: int, d: int)
    requires
        d >= 1,
    ensures
        q_wf(norm(n, d)),
        norm(n, d).n * d == n * norm(n, d).d,
        1 <= norm(n, d).d <= d,
        int_abs(norm(n, d).n) <= int_abs(n),
        n == 0 ==> norm(n, d) == q_zero(),
        n > 0 ==> norm(n, d).n >= 1,
        n < 0 ==> norm(n, d).n <= -1,
{
    let a = int_abs(n);
    let g = gcd(a, d as nat);
    lemma_gcd_divides(a, d as nat);
    let ka = choose|k: nat| a == #[trigger] (k * g);
    let kd = choose|k: nat| d as nat == #[trigger] (k * g);
    lemma_div_by_multiple(ka as int, g as int);
    lemma_div_by_multiple(kd as int, g as int);
    assert(a as int / g as int == ka && d / g as int == kd);
    lemma_gcd_reduced(a, d as nat);
    assert(kd >= 1 && kd <= d) by (nonlinear_arith)
        requires
            d == kd * g,
            d >= 1,
            g >= 1,
    ;
    assert(ka <= a) by (nonlinear_arith)
        requires
            a == ka * g,
            g >= 1,
    ;
    if n != 0 {
        assert(a >= 1);
        assert(ka >= 1) by (nonlinear_arith)
            requires
                a == ka * g,
                a >= 1,
                g >= 1,
        ;
    }
    assert(ka * d == a * kd) by (nonlinear_arith)
        requires
            a == ka * g,
            d == kd * g,
    ;
    if n >= 0 {
        assert(norm(n, d).n == ka as int && norm(n, d).d == kd as int && n == a as int);
    } else {
        assert(norm(n, d).n == -(ka as int) && n == -(a as int));
        assert((-(ka as int)) * d == (-(a as int)) * kd) by (nonlinear_arith)
            requires
                ka * d == a * kd,
        ;
    }
    if n == 0 {
        vstd::arithmetic::div_mod::lemma_small_mod(0, d as nat);
        assert(gcd(0, d as nat) == gcd(d as nat, 0));
        assert(g == d);
        assert(kd == 1) by (nonlinear_arith)
            requires
                d == kd * g,
                g == d,
                d >= 1,
        ;
    }
}

/// Value equality: `a` and `b` stand for the same rational number.
pub open spec fn q_eqv(a: Q, b: Q) -> bool {
    a.n * b.d == b.n * a.d
}

/// `a <= b` as rational numbers (denominators positive).
pub open spec fn q_le(a: Q, b: Q) -> bool {
    a.n * b.d <= b.n * a.d
}

/// `a < b` as rational numbers (denominators positive).
pub open spec fn q_lt(a: Q, b: Q) -> bool {
    a.n * b.d < b.n * a.d
}

/// The integer `i` as a rational.
pub open spec fn q_from_int(i: int) -> Q {
    Q { n: i, d: 1 }
}

/// Exact rational sum, reduced.
pub open spec fn q_add(a: Q, b: Q) -> Q {
    norm(a.n * b.d + b.n * a.d, a.d * b.d)
}

/// Exact rational difference, reduced.
pub open spec fn q_sub(a: Q, b: Q) -> Q {
    norm(a.n * b.d - b.n * a.d, a.d * b.d)
}

/// Exact rational product, reduced.
pub open spec fn q_mul(a: Q, b: Q) -> Q {
    norm(a.n * b.n, a.d * b.d)
}

/// Exact rational quotient, reduced; zero when the divisor is zero
/// (executable code reports that case as an error instead).
pub open spec fn q_div(a: Q, b: Q) -> Q {
    if b.n == 0 {
        q_zero()
    } else if b.n > 0 {
        norm(a.n * b.d, a.d * b.n)
    } else {
        norm(-(a.n * b.d), -(a.d * b.n))
    }
}

/// The reduced rational fits the executable representation.
pub open spec fn q_fits(q: Q) -> bool {
    -(i64::MAX as int) <= q.n <= i64::MAX as int && q.d <= i64::MAX as int
}

/// Sum if its reduced form fits the machine representation.
pub open spec fn q_add_chk(a: Q, b: Q) -> Option<Q> {
    if q_fits(q_add(a, b)) {
        Some(q_add(a, b))
    } else {
        None
    }
}

/// Difference if its reduced form fits the machine representation.
pub open spec fn q_sub_chk(a: Q, b: Q) -> Option<Q> {
    if q_fits(q_sub(a, b)) {
        Some(q_sub(a, b))
    } else {
        None
    }
}

/// Product if its reduced form fits the machine representation.
pub open spec fn q_mul_chk(a: Q, b: Q) -> Option<Q> {
    if q_fits(q_mul(a, b)) {
        Some(q_mul(a, b))
    } else {
        None
    }
}

/// Quotient if the divisor is nonzero and the reduced form fits.
pub open spec fn q_div_chk(a: Q, b: Q) -> Option<Q> {
    if b.n != 0 && q_fits(q_div(a, b)) {
        Some(q_div(a, b))
    } else {
        None
    }
}

/// The sum of two non-negative rationals is non-negative, and positive as
/// soon as either part is.
pub proof fn lemma_add_nonneg(a: Q, b: Q)
    requires
        q_wf(a),
        q_wf(b),
        a.n >= 0,
        b.n >= 0,
    ensures
        q_add(a, b).n >= 0,
        a.n > 0 || b.n > 0 ==> q_add(a, b).n >= 1,
{
    let rn = a.n * b.d + b.n * a.d;
    let rd = a.d * b.d;
    assert(rd >= 1 && rn >= 0 && ((a.n > 0 || b.n > 0) ==> rn >= 1)) by (nonlinear_arith)
        requires
            a.d >= 1,
            b.d >= 1,
            a.n >= 0,
            b.n >= 0,
            rn == a.n * b.d + b.n * a.d,
            rd == a.d * b.d,
    ;
    lemma_norm(rn, rd);
}

/// A numeric failure: a divisor was zero, or a reduced result's numerator
/// or denominator left the `i64` range the implementation can hold.
#[derive(Clone, Copy, Debug, PartialEq, Eq, Structural)]
pub enum RebalanceError {
    InvalidInput,
    DivisionByZero,
    Overflow,
}

/// An exact rational number held in lowest terms over `i64` fields.
#[derive(Clone, Copy, Debug, PartialEq, Eq, Structural)]
pub struct Rat {
    pub n: i64,
    pub d: i64,
}

impl View for Rat {
    type V = Q;

    open spec fn view(&self) -> Q {
        Q { n: self.n as int, d: self.d as int }
    }
}

/// Euclid's algorithm on machine words.
fn gcd_u128(a: u128, b: u128) -> (g: u128)
    requires
        b >= 1,
    ensures
        g == gcd(a as nat, b as nat),
        g >= 1,
    decreases b,
{
    let r = a % b;
    if r == 0 {
        proof {
            reveal_with_fuel(gcd, 2);
        }
        b
    } else {
        gcd_u128(b, r)
    }
}

impl Rat {
    /// The representation is reduced; the numerator stays clear of
    /// `i64::MIN` so that its magnitude also fits.
    pub open spec fn inv(&self) -> bool {
        q_wf(self@) && self.n > i64::MIN
    }

    /// Reduce `num / den` and pack it into a `Rat` when it fits.
    fn make(num: i128, den: i128) -> (r: Option<Rat>)
        requires
            1 <= den,
            -i128::MAX <= num,
        ensures
            r is Some <==> q_fits(norm(num as int, den as int)),
            r matches Some(x) ==> x@ == norm(num as int, den as int) && x.inv(),
    {
        proof {
            lemma_norm(num as int, den as int);
        }
        let neg = num < 0;
        let mag: u128 = if neg {
            (-num) as u128
        } else {
            num as u128
        };
        assert(mag == int_abs(num as int));
        let g = gcd_u128(mag, den as u128);
        let nm = mag / g;
        let dm = (den as u128) / g;
        assert(nm == int_abs(num as int) as int / gcd(int_abs(num as int), den as nat) as int);
        assert(dm == den as int / gcd(int_abs(num as int), den as nat) as int);
        if nm <= i64::MAX as u128 && dm <= i64::MAX as u128 {
            let n64: i64 = if neg {
                -(nm as i64)
            } else {
                nm as i64
            };
            Some(Rat { n: n64, d: dm as i64 })
        } else {
            None
        }
    }

    /// The rational zero.
    pub fn zero() -> (r: Rat)
        ensures
            r@ == q_zero(),
            r.inv(),
    {
        proof {
            lemma_gcd_one(0);
        }
        Rat { n: 0, d: 1 }
    }

    /// The integer `i` as a rational.
    pub fn from_int(i: i64) -> (r: Rat)
        requires
            i > i64::MIN,
        ensures
            r@ == q_from_int(i as int),
            r.inv(),
    {
        proof {
            lemma_gcd_one(int_abs(i as int));
        }
        Rat { n: i, d: 1 }
    }

    /// Build the exact rational `num / den`, reduced; the only failure is a
    /// zero denominator.
    pub fn new(num: i64, den: i64) -> (r: Result<Rat, RebalanceError>)
        requires
            num > i64::MIN,
            den > i64::MIN,
        ensures
            r is Ok <==> den != 0,
            r matches Ok(x) ==> x@ == q_ratio(num as int, den as int) && x.inv(),
            r is Err ==> r == Err::<Rat, RebalanceError>(RebalanceError::DivisionByZero),
    {
        if den == 0 {
            return Err(RebalanceError::DivisionByZero);
        }
        let (num2, den2): (i64, i64) = if den < 0 {
            (-num, -den)
        } else {
            (num, den)
        };
        proof {
            lemma_norm(num2 as int, den2 as int);
        }
        let made = Self::make(num2 as i128, den2 as i128);
        assert(int_abs(num2 as int) <= i64::MAX as int);
        match made {
            Some(x) => Ok(x),
            None => {
                proof {
                    assert(false);
                }
                Err(RebalanceError::Overflow)
            },
        }
    }
}

/// The value of `num / den` for any nonzero `den`, reduced.
pub open spec fn q_ratio(num: int, den: int) -> Q {
    if den >= 0 {
        norm(num, den)
    } else {
        norm(-num, -den)
    }
}

/// Cross products of two representations stay within `i128`.
proof fn lemma_cross_bound(x: int, y: int) by (nonlinear_arith)
    requires
        -(i64::MAX as int) <= x <= i64::MAX as int,
        -(i64::MAX as int) <= y <= i64::MAX as int,
    ensures
        -(i64::MAX as int * i64::MAX as int) <= x * y <= i64::MAX as int * i64::MAX as int,
{
}

impl Rat {
    /// Exact sum; `Overflow` exactly when the reduced sum leaves `i64`.
    pub fn add(&self, other: &Rat) -> (r: Result<Rat, RebalanceError>)
        requires
            self.inv(),
            other.inv(),
        ensures
            r matches Ok(x) ==> x@ == q_add(self@, other@) && x.inv(),
            r is Ok <==> q_fits(q_add(self@, other@)),
            r is Err ==> r == Err::<Rat, RebalanceError>(RebalanceError::Overflow),
    {
        proof {
            lemma_cross_bound(self.n as int, other.d as int);
            lemma_cross_bound(other.n as int, self.d as int);
            lemma_cross_bound(self.d as int, other.d as int);
        }
        let num = (self.n as i128) * (other.d as i128) + (other.n as i128) * (self.d as i128);
        assert((self.d as int) * (other.d as int) >= 1) by (nonlinear_arith)
            requires
                self.d >= 1,
                other.d >= 1,
        ;
        let den = (self.d as i128) * (other.d as i128);
        match Self::make(num, den) {
            Some(x) => Ok(x),
            None => Err(RebalanceError::Overflow),
        }
    }

    /// Exact difference; `Overflow` exactly when the reduced result leaves `i64`.
    pub fn sub(&self, other: &Rat) -> (r: Result<Rat, RebalanceError>)
        requires
            self.inv(),
            other.inv(),
        ensures
            r matches Ok(x) ==> x@ == q_sub(self@, other@) && x.inv(),
            r is Ok <==> q_fits(q_sub(self@, other@)),
            r is Err ==> r == Err::<Rat, RebalanceError>(RebalanceError::Overflow),
    {
        proof {
            lemma_cross_bound(self.n as int, other.d as int);
            lemma_cross_bound(other.n as int, self.d as int);
            lemma_cross_bound(self.d as int, other.d as int);
        }
        let num = (self.n as i128) * (other.d as i128) - (other.n as i128) * (self.d as i128);
        assert((self.d as int) * (other.d as int) >= 1) by (nonlinear_arith)
            requires
                self.d >= 1,
                other.d >= 1,
        ;
        let den = (self.d as i128) * (other.d as i128);
        match Self::make(num, den) {
            Some(x) => Ok(x),
            None => Err(RebalanceError::Overflow),
        }
    }

    /// Exact product; `Overflow` exactly when the reduced result leaves `i64`.
    pub fn mul(&self, other: &Rat) -> (r: Result<Rat, RebalanceError>)
        requires
            self.inv(),
            other.inv(),
        ensures
            r matches Ok(x) ==> x@ == q_mul(self@, other@) && x.inv(),
            r is Ok <==> q_fits(q_mul(self@, other@)),
            r is Err ==> r == Err::<Rat, RebalanceError>(RebalanceError::Overflow),
    {
        proof {
            lemma_cross_bound(self.n as int, other.n as int);
            lemma_cross_bound(self.d as int, other.d as int);
        }
        let num = (self.n as i128) * (other.n as i128);
        assert((self.d as int) * (other.d as int) >= 1) by (nonlinear_arith)
            requires
                self.d >= 1,
                other.d >= 1,
        ;
        let den = (self.d as i128) * (other.d as i128);
        match Self::make(num, den) {
            Some(x) => Ok(x),
            None => Err(RebalanceError::Overflow),
        }
    }

    /// Exact quotient; `DivisionByZero` exactly on a zero divisor, else
    /// `Overflow` exactly when the reduced result leaves `i64`.
    pub fn div(&self, other: &Rat) -> (r: Result<Rat, RebalanceError>)
        requires
            self.inv(),
            other.inv(),
        ensures
            r matches Ok(x) ==> x@ == q_div(self@, other@) && x.inv(),
            r is Ok <==> other@.n != 0 && q_fits(q_div(self@, other@)),
            other@.n == 0 ==> r == Err::<Rat, RebalanceError>(RebalanceError::DivisionByZero),
            r is Err && other@.n != 0 ==> r == Err::<Rat, RebalanceError>(RebalanceError::Overflow),
    {
        if other.n == 0 {
            return Err(RebalanceError::DivisionByZero);
        }
        proof {
            lemma_cross_bound(self.n as int, other.d as int);
            lemma_cross_bound(self.d as int, other.n as int);
        }
        assert((other.n > 0 ==> (self.d as int) * (other.n as int) >= 1) && (other.n < 0
            ==> (self.d as int) * (other.n as int) <= -1)) by (nonlinear_arith)
            requires
                self.d >= 1,
        ;
        let mut num = (self.n as i128) * (other.d as i128);
        let mut den = (self.d as i128) * (other.n as i128);
        if den < 0 {
            num = -num;
            den = -den;
        }
        match Self::make(num, den) {
            Some(x) => Ok(x),
            None => Err(RebalanceError::Overflow),
        }
    }

    /// `self <= other` as rational numbers.
    pub fn le(&self, other: &Rat) -> (r: bool)
        requires
            self.inv(),
            other.inv(),
        ensures
            r == q_le(self@, other@),
    {
        proof {
            lemma_cross_bound(self.n as int, other.d as int);
            lemma_cross_bound(other.n as int, self.d as int);
        }
        (self.n as i128) * (other.d as i128) <= (other.n as i128) * (self.d as i128)
    }

    /// `self < other` as rational numbers.
    pub fn lt(&self, other: &Rat) -> (r: bool)
        requires
            self.inv(),
            other.inv(),
        ensures
            r == q_lt(self@, other@),
    {
        proof {
            lemma_cross_bound(self.n as int, other.d as int);
            lemma_cross_bound(other.n as int, self.d as int);
        }
        (self.n as i128) * (other.d as i128) < (other.n as i128) * (self.d as i128)
    }

    /// The value is exactly zero.
    pub fn is_zero(&self) -> (r: bool)
        requires
            self.inv(),
        ensures
            r == (self@.n == 0),
            r == q_eqv(self@, q_zero()),
    {
        proof {
            assert(0 * self@.d == 0) by (nonlinear_arith);
        }
        self.n == 0
    }

    /// The value is negative.
    pub fn is_neg(&self) -> (r: bool)
        requires
            self.inv(),
        ensures
            r == q_lt(self@, q_zero()),
            r == (self@.n < 0),
    {
        proof {
            assert(0 * self@.d == 0) by (nonlinear_arith);
        }
        self.n < 0
    }

    /// The value is strictly positive.
    pub fn is_pos(&self) -> (r: bool)
        requires
            self.inv(),
        ensures
            r == (self@.n > 0),
            r == q_lt(q_zero(), self@),
    {
        proof {
            assert(0 * self@.d == 0) by (nonlinear_arith);
        }
        self.n > 0
    }
}

/// The zero rational is in lowest terms.
pub proof fn lemma_zero_wf()
    ensures
        q_wf(q_zero()),
{
    lemma_gcd_one(0);
}

/// Sum of two representations without reduction.
pub open spec fn q_add_raw(a: Q, b: Q) -> Q {
    Q { n: a.n * b.d + b.n * a.d, d: a.d * b.d }
}

/// Product of two representations without reduction.
pub open spec fn q_mul_raw(a: Q, b: Q) -> Q {
    Q { n: a.n * b.n, d: a.d * b.d }
}

/// A rational in lowest terms reduces to itself.
pub proof fn lemma_norm_identity(q: Q)
    requires
        q_wf(q),
    ensures
        norm(q.n, q.d) == q,
{
    vstd::arithmetic::div_mod::lemma_div_basics(int_abs(q.n) as int);
    vstd::arithmetic::div_mod::lemma_div_basics(q.d);
}

/// The reduced sum is well-formed and stands for the unreduced sum.
pub proof fn lemma_add_value(a: Q, b: Q)
    requires
        q_wf(a),
        q_wf(b),
    ensures
        q_wf(q_add(a, b)),
        q_eqv(q_add(a, b), q_add_raw(a, b)),
        q_add_raw(a, b).d >= 1,
{
    let rn = a.n * b.d + b.n * a.d;
    let rd = a.d * b.d;
    assert(rd >= 1) by (nonlinear_arith)
        requires
            a.d >= 1,
            b.d >= 1,
            rd == a.d * b.d,
    ;
    lemma_norm(rn, rd);
}

/// The reduced difference is well-formed and stands for the unreduced one.
pub proof fn lemma_sub_value(a: Q, b: Q)
    requires
        q_wf(a),
        q_wf(b),
    ensures
        q_wf(q_sub(a, b)),
        q_sub(a, b).n * (a.d * b.d) == (a.n * b.d - b.n * a.d) * q_sub(a, b).d,
        a.d * b.d >= 1,
{
    let rn = a.n * b.d - b.n * a.d;
    let rd = a.d * b.d;
    assert(rd >= 1) by (nonlinear_arith)
        requires
            a.d >= 1,
            b.d >= 1,
            rd == a.d * b.d,
    ;
    lemma_norm(rn, rd);
}

/// The reduced product is well-formed and stands for the unreduced product.
pub proof fn lemma_mul_value(a: Q, b: Q)
    requires
        q_wf(a),
        q_wf(b),
    ensures
        q_wf(q_mul(a, b)),
        q_eqv(q_mul(a, b), q_mul_raw(a, b)),
        q_mul_raw(a, b).d >= 1,
        a.n >= 0 && b.n >= 0 ==> q_mul(a, b).n >= 0,
{
    let rn = a.n * b.n;
    let rd = a.d * b.d;
    assert(rd >= 1 && (a.n >= 0 && b.n >= 0 ==> rn >= 0)) by (nonlinear_arith)
        requires
            a.d >= 1,
            b.d >= 1,
            rd == a.d * b.d,
            rn == a.n * b.n,
    ;
    lemma_norm(rn, rd);
}

/// The reduced quotient is well-formed and stands for `a` over `b`:
/// `q_div(a, b) * b == a` read on cross products.
pub proof fn lemma_div_value(a: Q, b: Q)
    requires
        q_wf(a),
        q_wf(b),
        b.n != 0,
    ensures
        q_wf(q_div(a, b)),
        q_div(a, b).n * (a.d * b.n) == (a.n * b.d) * q_div(a, b).d,
        a.n >= 0 && b.n > 0 ==> q_div(a, b).n >= 0,
        a.n > 0 && b.n > 0 ==> q_div(a, b).n >= 1,
{
    if b.n > 0 {
        let rn = a.n * b.d;
        let rd = a.d * b.n;
        assert(rd >= 1 && (a.n >= 0 ==> rn >= 0) && (a.n > 0 ==> rn >= 1)) by (nonlinear_arith)
            requires
                a.d >= 1,
                b.d >= 1,
                b.n >= 1,
                rd == a.d * b.n,
                rn == a.n * b.d,
        ;
        lemma_norm(rn, rd);
    } else {
        let rn = -(a.n * b.d);
        let rd = -(a.d * b.n);
        assert(rd >= 1) by (nonlinear_arith)
            requires
                a.d >= 1,
                b.n <= -1,
                rd == -(a.d * b.n),
        ;
        lemma_norm(rn, rd);
        assert(q_div(a, b).n * (a.d * b.n) == (a.n * b.d) * q_div(a, b).d) by (nonlinear_arith)
            requires
                q_div(a, b).n * rd == rn * q_div(a, b).d,
                rd == -(a.d * b.n),
                rn == -(a.n * b.d),
        ;
    }
}

} // verus!
